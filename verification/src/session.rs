use vstd::prelude::*;
use crate::board::{Board, Position, count_pieces};
use crate::puzzle::{generate, generation_tries, is_fallback, is_puzzle, pieces_for_level};
use crate::rng::Rng;

verus! {

/// How many puzzles each level holds.
pub const PUZZLES_PER_LEVEL: usize = 3;

/// How many levels a session holds.
pub const LEVELS: u8 = 10;

/// The spot after puzzle `p` of level `l`, where `sizes[l]` is the number
/// of puzzles of level `l`: the next puzzle of the level, or the first one
/// of the next level, the last level wrapping round to the first.
pub open spec fn next_spot(sizes: Seq<int>, l: int, p: int) -> (int, int) {
    if p + 1 >= sizes[l] {
        ((l + 1) % sizes.len() as int, 0)
    } else {
        (l, p + 1)
    }
}

/// The spot before puzzle `p` of level `l`: the previous puzzle of the
/// level, or the last one of the previous level, the first level wrapping
/// round to the last.
pub open spec fn prev_spot(sizes: Seq<int>, l: int, p: int) -> (int, int) {
    if p == 0 {
        let l2 = if l == 0 { sizes.len() - 1 } else { l - 1 };
        (l2, sizes[l2] - 1)
    } else {
        (l, p - 1)
    }
}

/// Every level holds a puzzle, and `(l, p)` names one of them.
pub open spec fn valid_spot(sizes: Seq<int>, l: int, p: int) -> bool {
    &&& sizes.len() >= 1
    &&& forall|k: int| 0 <= k < sizes.len() ==> #[trigger] sizes[k] >= 1
    &&& 0 <= l < sizes.len()
    &&& 0 <= p < sizes[l]
}

/// Going back after going forward, or forward after going back, returns
/// to the same puzzle; both stay on valid spots.
pub proof fn law_prev_undoes_next(sizes: Seq<int>, l: int, p: int)
    requires
        valid_spot(sizes, l, p),
    ensures
        valid_spot(sizes, next_spot(sizes, l, p).0, next_spot(sizes, l, p).1),
        valid_spot(sizes, prev_spot(sizes, l, p).0, prev_spot(sizes, l, p).1),
        prev_spot(sizes, next_spot(sizes, l, p).0, next_spot(sizes, l, p).1) == (l, p),
        next_spot(sizes, prev_spot(sizes, l, p).0, prev_spot(sizes, l, p).1) == (l, p),
{
    let n = sizes.len() as int;
    if l + 1 < n {
        vstd::arithmetic::div_mod::lemma_small_mod((l + 1) as nat, n as nat);
    } else {
        vstd::arithmetic::div_mod::lemma_mod_self_0(n);
    }
    if l == 0 {
        vstd::arithmetic::div_mod::lemma_mod_self_0(n);
    } else {
        vstd::arithmetic::div_mod::lemma_small_mod(l as nat, n as nat);
    }
}

/// The first `k` puzzles of `level`, each generated in turn (see
/// `generate`) from generator state `state`, and the state after them.
pub open spec fn deal_level(level: u8, state: u64, k: nat) -> (Seq<Position>, u64)
    decreases k,
{
    if k == 0 {
        (Seq::empty(), state)
    } else {
        let (prev, s) = deal_level(level, state, (k - 1) as nat);
        let (p, s2) = generation_tries(level, s, 200);
        (prev.push(p), s2)
    }
}

/// The puzzles of levels 1 to `n`, `PUZZLES_PER_LEVEL` each, generated in
/// turn from generator state `state`, and the state after them.
pub open spec fn deal_levels(state: u64, n: nat) -> (Seq<Seq<Position>>, u64)
    decreases n,
{
    if n == 0 {
        (Seq::empty(), state)
    } else {
        let (prev, s) = deal_levels(state, (n - 1) as nat);
        let (ps, s2) = deal_level(n as u8, s, PUZZLES_PER_LEVEL as nat);
        (prev.push(ps), s2)
    }
}

/// The puzzles of `s` are those that the generator deals from state `seed`.
pub open spec fn dealt_from(s: PuzzleSession, seed: u64) -> bool {
    forall|l: int, p: int| 0 <= l < LEVELS && 0 <= p < PUZZLES_PER_LEVEL ==>
        #[trigger] s.puzzle(l, p)@ == deal_levels(seed, LEVELS as nat).0[l][p]
}

/// The puzzles of a training session, level by level, with the one being
/// played.
pub struct PuzzleSession {
    pub levels: Vec<Vec<Board>>,
    pub current_level: usize,
    pub current_puzzle: usize,
    pub board: Board,
}

impl PuzzleSession {
    /// How many puzzles each level holds.
    pub open spec fn sizes(&self) -> Seq<int> {
        Seq::new(self.levels@.len(), |l: int| self.levels@[l]@.len() as int)
    }

    /// Puzzle `p` of level `l`.
    pub open spec fn puzzle(&self, l: int, p: int) -> Board {
        self.levels@[l]@[p]
    }

    /// The current level and puzzle exist.
    pub open spec fn wf(&self) -> bool {
        valid_spot(self.sizes(), self.current_level as int, self.current_puzzle as int)
    }

    /// A session of `LEVELS` levels of `PUZZLES_PER_LEVEL` puzzles each,
    /// generated in turn (see `deal_levels`) by a generator seeded from the clock; the first puzzle
    /// of the first level is on the board. `None` when the clock reads
    /// before 1970 (see `Rng::from_time`).
    pub fn new() -> (r: Option<PuzzleSession>)
        ensures
            r matches Some(s) ==> {
                &&& exists|seed: u64| #[trigger] dealt_from(s, seed)
                &&& s.wf()
                &&& s.levels@.len() == LEVELS
                &&& forall|l: int| 0 <= l < LEVELS ==> #[trigger] s.levels@[l]@.len() == PUZZLES_PER_LEVEL
                &&& forall|l: int, p: int|
                    0 <= l < LEVELS && 0 <= p < PUZZLES_PER_LEVEL ==> is_puzzle(#[trigger] s.puzzle(l, p)@)
                &&& forall|l: int, p: int|
                    0 <= l < LEVELS && 0 <= p < PUZZLES_PER_LEVEL ==> count_pieces(#[trigger] s.puzzle(l, p)@.pieces)
                        == pieces_for_level((l + 1) as u8) || is_fallback(s.puzzle(l, p)@)
                &&& s.current_level == 0
                &&& s.current_puzzle == 0
                &&& s.board == s.puzzle(0, 0)
            },
    {
        match Rng::from_time() {
            Some(rng) => {
                let mut rng = rng;
                let ghost seed = rng.state();
                let s = PuzzleSession::with_rng(&mut rng);
                assert(dealt_from(s, seed));
                Some(s)
            },
            None => None,
        }
    }

    /// A session like `new` gives, generated with `rng`.
    pub fn with_rng(rng: &mut Rng) -> (s: PuzzleSession)
        ensures
            forall|l: int, p: int| 0 <= l < LEVELS && 0 <= p < PUZZLES_PER_LEVEL ==>
                #[trigger] s.puzzle(l, p)@ == deal_levels(old(rng).state(), LEVELS as nat).0[l][p],
            final(rng).state() == deal_levels(old(rng).state(), LEVELS as nat).1,
            s.wf(),
            s.levels@.len() == LEVELS,
            forall|l: int| 0 <= l < LEVELS ==> #[trigger] s.levels@[l]@.len() == PUZZLES_PER_LEVEL,
            forall|l: int, p: int| 0 <= l < LEVELS && 0 <= p < PUZZLES_PER_LEVEL ==> is_puzzle(#[trigger] s.puzzle(l, p)@),
            forall|l: int, p: int| 0 <= l < LEVELS && 0 <= p < PUZZLES_PER_LEVEL ==>
                count_pieces(#[trigger] s.puzzle(l, p)@.pieces) == pieces_for_level((l + 1) as u8) || is_fallback(s.puzzle(l, p)@),
            s.current_level == 0,
            s.current_puzzle == 0,
            s.board == s.puzzle(0, 0),
    {
        let ghost s0 = rng.state();
        let mut levels: Vec<Vec<Board>> = Vec::with_capacity(LEVELS as usize);
        let mut level: u8 = 1;
        while level <= LEVELS
            invariant
                1 <= level <= LEVELS + 1,
                s0 == old(rng).state(),
                deal_levels(s0, (level - 1) as nat).0.len() == level - 1,
                rng.state() == deal_levels(s0, (level - 1) as nat).1,
                forall|l: int, p: int| 0 <= l < levels@.len() && 0 <= p < PUZZLES_PER_LEVEL ==>
                    #[trigger] levels@[l]@[p]@ == deal_levels(s0, (level - 1) as nat).0[l][p],
                levels@.len() == level - 1,
                forall|l: int| 0 <= l < levels@.len() ==> #[trigger] levels@[l]@.len() == PUZZLES_PER_LEVEL,
                forall|l: int, p: int| 0 <= l < levels@.len() && 0 <= p < PUZZLES_PER_LEVEL ==> is_puzzle(#[trigger] levels@[l]@[p]@),
                forall|l: int, p: int| 0 <= l < levels@.len() && 0 <= p < PUZZLES_PER_LEVEL ==>
                    count_pieces(#[trigger] levels@[l]@[p]@.pieces) == pieces_for_level((l + 1) as u8) || is_fallback(levels@[l]@[p]@),
            decreases LEVELS + 1 - level,
        {
            let ghost s_level = rng.state();
            let mut puzzles: Vec<Board> = Vec::with_capacity(PUZZLES_PER_LEVEL);
            let mut k: usize = 0;
            while k < PUZZLES_PER_LEVEL
                invariant
                    1 <= level <= LEVELS,
                    deal_level(level, s_level, k as nat).0.len() == k,
                    rng.state() == deal_level(level, s_level, k as nat).1,
                    forall|p: int| 0 <= p < k ==> #[trigger] puzzles@[p]@ == deal_level(level, s_level, k as nat).0[p],
                    k <= PUZZLES_PER_LEVEL,
                    puzzles@.len() == k,
                    forall|p: int| 0 <= p < k ==> is_puzzle(#[trigger] puzzles@[p]@),
                    forall|p: int| 0 <= p < k ==>
                        count_pieces(#[trigger] puzzles@[p]@.pieces) == pieces_for_level(level) || is_fallback(puzzles@[p]@),
                decreases PUZZLES_PER_LEVEL - k,
            {
                let ghost prev = deal_level(level, s_level, k as nat);
                puzzles.push(generate(level, rng));
                assert(deal_level(level, s_level, (k + 1) as nat).0 == prev.0.push(puzzles@[k as int]@));
                k = k + 1;
            }
            let ghost before = levels@;
            let ghost prev_levels = deal_levels(s0, (level - 1) as nat);
            assert(deal_levels(s0, level as nat) == (prev_levels.0.push(deal_level(level, s_level, PUZZLES_PER_LEVEL as nat).0), rng.state()));
            levels.push(puzzles);
            assert forall|l: int, p: int| 0 <= l < levels@.len() && 0 <= p < PUZZLES_PER_LEVEL implies
                #[trigger] levels@[l]@[p]@ == deal_levels(s0, level as nat).0[l][p] by {
                if l < before.len() {
                    assert(levels@[l] == before[l]);
                }
            }
            assert forall|l: int, p: int| 0 <= l < levels@.len() && 0 <= p < PUZZLES_PER_LEVEL implies
                count_pieces(#[trigger] levels@[l]@[p]@.pieces) == pieces_for_level((l + 1) as u8) || is_fallback(levels@[l]@[p]@) by {
                if l < before.len() {
                    assert(levels@[l] == before[l]);
                } else {
                    assert(((l + 1) as u8) == level);
                }
            }
            level = level + 1;
        }
        let board = levels[0][0];
        let s = PuzzleSession { levels, current_level: 0, current_puzzle: 0, board };
        assert(s.sizes()[0] >= 1);
        s
    }

    /// Puts the current puzzle back on the board, as it was generated.
    pub fn reset(&mut self)
        requires
            old(self).wf(),
        ensures
            final(self).wf(),
            final(self).levels == old(self).levels,
            final(self).current_level == old(self).current_level,
            final(self).current_puzzle == old(self).current_puzzle,
            final(self).board == old(self).puzzle(old(self).current_level as int, old(self).current_puzzle as int),
    {
        assert(self.sizes()[self.current_level as int] == self.levels@[self.current_level as int]@.len());
        self.board = self.levels[self.current_level][self.current_puzzle];
    }

    /// Moves on to the next puzzle (see `next_spot`) and puts it on the board.
    pub fn next(&mut self)
        requires
            old(self).wf(),
        ensures
            final(self).wf(),
            final(self).levels == old(self).levels,
            (final(self).current_level as int, final(self).current_puzzle as int)
                == next_spot(old(self).sizes(), old(self).current_level as int, old(self).current_puzzle as int),
            final(self).board == final(self).puzzle(final(self).current_level as int, final(self).current_puzzle as int),
    {
        proof {
            law_prev_undoes_next(self.sizes(), self.current_level as int, self.current_puzzle as int);
        }
        let size = self.levels[self.current_level].len();
        let count = self.levels.len();
        assert(self.current_level < count);
        assert(self.sizes()[self.current_level as int] == size);
        self.current_puzzle = self.current_puzzle + 1;
        if self.current_puzzle >= size {
            self.current_puzzle = 0;
            self.current_level = (self.current_level + 1) % count;
        }
        self.reset();
    }

    /// Goes back to the previous puzzle (see `prev_spot`) and puts it on the board.
    pub fn prev(&mut self)
        requires
            old(self).wf(),
        ensures
            final(self).wf(),
            final(self).levels == old(self).levels,
            (final(self).current_level as int, final(self).current_puzzle as int)
                == prev_spot(old(self).sizes(), old(self).current_level as int, old(self).current_puzzle as int),
            final(self).board == final(self).puzzle(final(self).current_level as int, final(self).current_puzzle as int),
    {
        proof {
            law_prev_undoes_next(self.sizes(), self.current_level as int, self.current_puzzle as int);
        }
        if self.current_puzzle == 0 {
            self.current_level = if self.current_level == 0 {
                self.levels.len() - 1
            } else {
                self.current_level - 1
            };
            assert(self.sizes()[self.current_level as int] == self.levels@[self.current_level as int]@.len());
            self.current_puzzle = self.levels[self.current_level].len() - 1;
        } else {
            self.current_puzzle = self.current_puzzle - 1;
        }
        self.reset();
    }

    /// Jumps to the first puzzle of `level` (counted from zero) and puts it
    /// on the board; a level that does not exist changes nothing.
    pub fn goto_level(&mut self, level: usize)
        requires
            old(self).wf(),
        ensures
            final(self).wf(),
            final(self).levels == old(self).levels,
            level < old(self).levels@.len() ==> final(self).current_level == level && final(self).current_puzzle == 0
                && final(self).board == final(self).puzzle(level as int, 0),
            level >= old(self).levels@.len() ==> *final(self) == *old(self),
    {
        if level < self.levels.len() {
            self.current_level = level;
            self.current_puzzle = 0;
            assert(self.sizes()[level as int] >= 1);
            self.reset();
        }
    }
}

} // verus!
