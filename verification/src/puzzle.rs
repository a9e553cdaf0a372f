use vstd::prelude::*;
use crate::board::{
    Board, Piece, Position, count_kings, count_pieces, is_won, lemma_moves_same_occupancy,
    moves_of, after_move, same_occupancy, valid_move,
};
use crate::rng::{Rng, lcg, shuffled};
use crate::rules::{
    law_capture_removes_one_piece, lemma_count_kings_update, lemma_count_pieces_update, solvable,
    solves, well_sized,
};

verus! {

/// The number of pieces that a puzzle of the given level holds: three at
/// level 1 (and below); from level 2 on, three more than the level, capped
/// at thirteen, which level 10 reaches.
pub open spec fn pieces_for_level(level: u8) -> int {
    if level <= 1 {
        3
    } else if level + 3 >= 13 {
        13
    } else {
        level + 3
    }
}

/// The number of pieces that a puzzle of the given level holds.
pub fn num_pieces_for_level(level: u8) -> (n: usize)
    ensures
        n == pieces_for_level(level),
{
    if level <= 1 {
        3
    } else if level >= 10 {
        13
    } else {
        level as usize + 3
    }
}

/// The puzzles grow from three pieces at the first level to thirteen at
/// the tenth, never shrinking from one level to the next.
pub proof fn law_pieces_grow(a: u8, b: u8)
    requires
        a <= b,
    ensures
        pieces_for_level(1) == 3,
        pieces_for_level(10) == 13,
        3 <= pieces_for_level(a) <= pieces_for_level(b) <= 13,
{
}

/// A square on which `piece`, placed there, would attack `target`: the
/// square from which a capture of `target` could have come.
pub open spec fn is_reverse_origin(pos: Position, piece: Piece, target: int, origin: int) -> bool {
    &&& 0 <= origin < 64
    &&& origin != target
    &&& pos.pieces[origin] is None
    &&& moves_of(pos.pieces.update(origin, Some(piece)), origin).contains(target as usize)
}

/// `s` lists squares in strictly increasing order.
pub open spec fn increasing(s: Seq<usize>) -> bool {
    forall|a: int, b: int| 0 <= a < b < s.len() ==> s[a] < s[b]
}

/// A piece that may still be moved backwards: fewer than two captures are
/// planned for it.
pub open spec fn is_candidate(pos: Position, i: int) -> bool {
    0 <= i < 64 && pos.pieces[i] is Some && pos.used[i] < 2
}

/// The squares below `n`, in increasing order, from which `piece` could
/// have captured on `target`.
pub open spec fn reverse_origins(pos: Position, piece: Piece, target: int, n: int) -> Seq<usize>
    decreases n,
{
    if n <= 0 {
        Seq::empty()
    } else {
        reverse_origins(pos, piece, target, n - 1) + if is_reverse_origin(pos, piece, target, n - 1) {
            seq![(n - 1) as usize]
        } else {
            Seq::empty()
        }
    }
}

/// The squares below `n`, in increasing order, whose piece may still be moved back.
pub open spec fn candidates(pos: Position, n: int) -> Seq<usize>
    decreases n,
{
    if n <= 0 {
        Seq::empty()
    } else {
        candidates(pos, n - 1) + if is_candidate(pos, n - 1) { seq![(n - 1) as usize] } else { Seq::empty() }
    }
}

/// The pieces that may appear as captured ones, in the order the generator draws from.
pub open spec fn non_king_pieces() -> Seq<Piece> {
    seq![Piece::Queen, Piece::Tower, Piece::Bishop, Piece::Knight, Piece::Pawn]
}

/// The backward step that the generator takes, trying the pieces of
/// `order` from index `k` on, and the generator state after it: the first
/// piece with a square it could have come from moves back to one of those
/// squares drawn at random, and a piece drawn at random from
/// `non_king_pieces` appears where it stood. `None` when no piece of
/// `order` can move back.
pub open spec fn first_step(pos: Position, order: Seq<usize>, k: int, state: u64) -> (Option<(usize, usize, Piece)>, u64)
    decreases order.len() - k,
{
    if k < 0 || k >= order.len() {
        (None, state)
    } else {
        let mover = order[k];
        let origins = reverse_origins(pos, pos.pieces[mover as int]->0, mover as int, 64);
        if origins.len() == 0 {
            first_step(pos, order, k + 1, state)
        } else {
            let s1 = lcg(state);
            let origin = origins[(s1 % (origins.len() as u64)) as int];
            let s2 = lcg(s1);
            (Some((origin, mover, non_king_pieces()[(s2 % 5) as int])), s2)
        }
    }
}

/// The position that `remaining` further backward steps build from `pos`,
/// each over the candidates shuffled by the generator, and the generator
/// state after them; `None` when a step finds no piece to move back.
pub open spec fn build(pos: Position, remaining: nat, state: u64) -> (Option<Position>, u64)
    decreases remaining,
{
    if remaining == 0 {
        (Some(pos), state)
    } else {
        let listed = candidates(pos, 64);
        if listed.len() == 0 {
            (None, state)
        } else {
            let (order, s1) = shuffled(listed, state, listed.len() - 1);
            let (step, s2) = first_step(pos, order, 0, s1);
            match step {
                None => (None, s2),
                Some(c) => build(reverse_capture(pos, c.0 as int, c.1 as int, c.2), (remaining - 1) as nat, s2),
            }
        }
    }
}

/// A board with a lone king on square `k`.
pub open spec fn lone_king(k: int) -> Position {
    Position {
        pieces: Seq::new(64, |i: int| if i == k { Some(Piece::King) } else { None }),
        used: Seq::new(64, |i: int| 0u8),
    }
}

/// `pos` with every capture count at zero.
pub open spec fn fresh_counts(pos: Position) -> Position {
    Position { pieces: pos.pieces, used: Seq::new(64, |i: int| 0u8) }
}

/// What one try of the generator gives for `level` from generator state
/// `state`, and the state after it: a king on a square drawn at random,
/// then one backward step per further piece.
pub open spec fn generation(level: u8, state: u64) -> (Option<Position>, u64) {
    let s1 = lcg(state);
    let (built, s2) = build(lone_king((s1 % 64) as int), (pieces_for_level(level) - 1) as nat, s1);
    (
        match built {
            Some(p) => Some(fresh_counts(p)),
            None => None,
        },
        s2,
    )
}

/// The fallback board as a position.
pub open spec fn fallback_position() -> Position {
    Position {
        pieces: Seq::new(
            64,
            |i: int| if i == 28 { Some(Piece::King) } else if i == 36 { Some(Piece::Pawn) } else { None },
        ),
        used: Seq::new(64, |i: int| 0u8),
    }
}

/// The first of `tries` tries of the generator that succeeds, else the
/// fallback board, and the generator state after them.
pub open spec fn generation_tries(level: u8, state: u64, tries: nat) -> (Position, u64)
    decreases tries,
{
    if tries == 0 {
        (fallback_position(), state)
    } else {
        let (r, s) = generation(level, state);
        match r {
            Some(p) => (p, s),
            None => generation_tries(level, s, (tries - 1) as nat),
        }
    }
}

/// Each of `tries` tries of the generator in turn, from `state`, fails.
pub open spec fn all_tries_fail(level: u8, state: u64, tries: nat) -> bool
    decreases tries,
{
    tries == 0 || (generation(level, state).0 is None && all_tries_fail(level, generation(level, state).1, (tries - 1) as nat))
}

/// The generator keeps the first try that succeeds: when the try from
/// `state` succeeds, any positive number of tries gives its puzzle and
/// the state it left; when it fails, the remaining tries go on from the
/// state it left. The fallback board comes only when every try fails.
pub proof fn law_generation_first_success(level: u8, state: u64, tries: nat)
    requires
        tries >= 1,
    ensures
        generation(level, state).0 matches Some(p) ==> generation_tries(level, state, tries) == (p, generation(level, state).1),
        generation(level, state).0 is None ==> generation_tries(level, state, tries) == generation_tries(
            level,
            generation(level, state).1,
            (tries - 1) as nat,
        ),
        all_tries_fail(level, state, tries) ==> generation_tries(level, state, tries).0 == fallback_position(),
    decreases tries,
{
    if generation(level, state).0 is None {
        if tries > 1 {
            law_generation_first_success(level, generation(level, state).1, (tries - 1) as nat);
        } else {
            assert(generation_tries(level, generation(level, state).1, 0).0 == fallback_position());
        }
    }
}

/// `used` gives each piece at most as many captures as `plan` leaves it room for.
pub open spec fn fits_plan(pieces: Seq<Option<Piece>>, plan: Seq<u8>, used: Seq<u8>) -> bool {
    &&& used.len() == 64
    &&& forall|i: int| 0 <= i < 64 && (#[trigger] pieces[i]) is Some ==> used[i] + plan[i] <= 2
}

/// A position built backwards from a solved one, where `pos.used[i]`
/// counts the captures that the piece on `i` still has to make: whatever
/// captures the pieces have already made, as long as each piece keeps room
/// for the ones planned, the position can be solved.
pub open spec fn playable(pos: Position) -> bool {
    forall|used: Seq<u8>| #[trigger] fits_plan(pos.pieces, pos.used, used)
        ==> solvable(Position { pieces: pos.pieces, used })
}

/// One backward step: the piece on `mover` goes back to `origin`, planning
/// one capture more, and a `captured` piece appears on `mover`.
pub open spec fn reverse_capture(pos: Position, origin: int, mover: int, captured: Piece) -> Position {
    Position {
        pieces: pos.pieces.update(origin, pos.pieces[mover]).update(mover, Some(captured)),
        used: pos.used.update(origin, (pos.used[mover] + 1) as u8).update(mover, 0),
    }
}

/// A backward step that the generator may take.
pub open spec fn reverse_step_ok(pos: Position, origin: int, mover: int, captured: Piece) -> bool {
    &&& is_candidate(pos, mover)
    &&& is_reverse_origin(pos, pos.pieces[mover]->0, mover, origin)
    &&& captured != Piece::King
}

/// What a generated puzzle is: one king among the pieces, no capture made
/// yet, and a solution.
pub open spec fn is_puzzle(pos: Position) -> bool {
    &&& well_sized(pos)
    &&& count_kings(pos.pieces) == 1
    &&& forall|i: int| 0 <= i < 64 ==> #[trigger] pos.used[i] == 0
    &&& solvable(pos)
}

/// The board that stands in when no puzzle could be generated: a king on
/// e5 (square 28) and a pawn right below it on e4 (square 36).
pub open spec fn is_fallback(pos: Position) -> bool {
    &&& well_sized(pos)
    &&& forall|i: int| 0 <= i < 64 ==> #[trigger] pos.used[i] == 0
    &&& forall|i: int| 0 <= i < 64 && i != 28 && i != 36 ==> #[trigger] pos.pieces[i] is None
    &&& pos.pieces[28] == Some(Piece::King)
    &&& pos.pieces[36] == Some(Piece::Pawn)
}

pub proof fn lemma_count_none(p: Seq<Option<Piece>>)
    requires
        forall|i: int| 0 <= i < p.len() ==> #[trigger] p[i] is None,
    ensures
        count_pieces(p) == 0,
        count_kings(p) == 0,
    decreases p.len(),
{
    if p.len() > 0 {
        lemma_count_none(p.drop_last());
    }
}

/// A position with a single piece can be solved by doing nothing, whatever
/// was planned for that piece.
pub proof fn lemma_single_piece_playable(pos: Position)
    requires
        well_sized(pos),
        count_pieces(pos.pieces) == 1,
    ensures
        playable(pos),
{
    assert forall|used: Seq<u8>| #[trigger] fits_plan(pos.pieces, pos.used, used) implies solvable(Position { pieces: pos.pieces, used }) by {
        let q = Position { pieces: pos.pieces, used };
        assert(solves(q, Seq::empty()));
    }
}

/// A backward step keeps a position playable: the capture that it undoes
/// is allowed from the new position and leads back to the old one.
pub proof fn lemma_reverse_step(pos: Position, origin: int, mover: int, captured: Piece)
    requires
        well_sized(pos),
        playable(pos),
        forall|i: int| 0 <= i < 64 ==> #[trigger] pos.used[i] <= 2,
        reverse_step_ok(pos, origin, mover, captured),
    ensures
        well_sized(reverse_capture(pos, origin, mover, captured)),
        playable(reverse_capture(pos, origin, mover, captured)),
        forall|i: int| 0 <= i < 64 ==> #[trigger] reverse_capture(pos, origin, mover, captured).used[i] <= 2,
        count_pieces(reverse_capture(pos, origin, mover, captured).pieces) == count_pieces(pos.pieces) + 1,
        count_kings(reverse_capture(pos, origin, mover, captured).pieces) == count_kings(pos.pieces),
{
    let p = pos.pieces;
    let w = pos.used;
    let next = reverse_capture(pos, origin, mover, captured);
    let p1 = next.pieces;
    let w1 = next.used;
    let piece = p[mover]->0;
    let probe = p.update(origin, Some(piece));
    let mid = p.update(origin, p[mover]);
    lemma_count_pieces_update(p, origin, p[mover]);
    lemma_count_pieces_update(mid, mover, Some(captured));
    lemma_count_kings_update(p, origin, p[mover]);
    lemma_count_kings_update(mid, mover, Some(captured));
    assert(same_occupancy(p1, probe));
    assert(p1[origin] == probe[origin]);
    lemma_moves_same_occupancy(p1, probe, origin);
    assert forall|used: Seq<u8>| #[trigger] fits_plan(p1, w1, used) implies solvable(Position { pieces: p1, used }) by {
        let q = Position { pieces: p1, used };
        assert(p1[origin] is Some);
        assert(used[origin] + w1[origin] <= 2);
        assert(valid_move(q, origin, mover));
        let back = after_move(q, origin, mover);
        assert(back.pieces =~= p);
        assert(fits_plan(p, w, back.used)) by {
            assert forall|i: int| 0 <= i < 64 && (#[trigger] p[i]) is Some implies back.used[i] + w[i] <= 2 by {
                if i == mover {
                    assert(back.used[i] == used[origin] + 1);
                } else {
                    assert(p1[i] is Some);
                    assert(back.used[i] == used[i]);
                }
            }
        }
        assert(solvable(Position { pieces: p, used: back.used }));
        assert(back == Position { pieces: p, used: back.used });
        let path = choose|path: Seq<(int, int)>| #[trigger] solves(back, path);
        let full = seq![(origin, mover)] + path;
        assert(full.drop_first() =~= path);
        assert(solves(q, full));
    }
}

/// Whether `target` is among `v`.
fn contains_square(v: &Vec<usize>, target: usize) -> (b: bool)
    ensures
        b == v@.contains(target),
{
    let n = v.len();
    let mut i: usize = 0;
    while i < n
        invariant
            n == v@.len(),
            0 <= i <= n,
            forall|j: int| 0 <= j < i ==> v@[j] != target,
        decreases n - i,
    {
        if v[i] == target {
            assert(v@[i as int] == target);
            return true;
        }
        i = i + 1;
    }
    false
}

/// The squares, in increasing order, from which `piece` could have
/// captured on `target`: empty squares from which it would attack `target`
/// (none when `target` is off the board).
pub fn find_reverse_origins(board: &Board, piece: Piece, target: usize) -> (origins: Vec<usize>)
    ensures
        origins@ == reverse_origins(board@, piece, target as int, 64),
        target >= 64 ==> origins@.len() == 0,
        increasing(origins@),
        forall|k: int| 0 <= k < origins@.len() ==> is_reverse_origin(board@, piece, target as int, #[trigger] origins@[k] as int),
        forall|o: int| is_reverse_origin(board@, piece, target as int, o) ==> #[trigger] origins@.contains(o as usize),
{
    let mut origins: Vec<usize> = Vec::new();
    let mut origin: usize = 0;
    while origin < 64
        invariant
            0 <= origin <= 64,
            target >= 64 ==> origins@.len() == 0,
            origins@ == reverse_origins(board@, piece, target as int, origin as int),
            increasing(origins@),
            forall|k: int| 0 <= k < origins@.len() ==> #[trigger] origins@[k] < origin,
            forall|k: int| 0 <= k < origins@.len() ==> is_reverse_origin(board@, piece, target as int, #[trigger] origins@[k] as int),
            forall|o: int| 0 <= o < origin && is_reverse_origin(board@, piece, target as int, o) ==> #[trigger] origins@.contains(o as usize),
        decreases 64 - origin,
    {
        if origin != target && board.pieces[origin].is_none() {
            let mut probe = *board;
            probe.pieces[origin] = Some(piece);
            assert(probe@.pieces == board@.pieces.update(origin as int, Some(piece)));
            let targets = probe.moves(origin);
            proof {
                crate::board::lemma_moves_in_range(probe@.pieces, origin as int);
            }
            assert(is_reverse_origin(board@, piece, target as int, origin as int) == targets@.contains(target));
            if contains_square(&targets, target) {
                let ghost before = origins@;
                origins.push(origin);
                assert forall|o: int| 0 <= o < origin + 1 && is_reverse_origin(board@, piece, target as int, o) implies #[trigger] origins@.contains(o as usize) by {
                    if o < origin {
                        assert(before.contains(o as usize));
                        let k = choose|k: int| 0 <= k < before.len() && before[k] == o as usize;
                        assert(origins@[k] == o as usize);
                    } else {
                        assert(origins@[before.len() as int] == origin);
                    }
                }
            }
        }
        origin = origin + 1;
    }
    origins
}

/// The squares, in increasing order, whose piece has captured fewer than twice.
fn capture_candidates(board: &Board) -> (c: Vec<usize>)
    ensures
        c@ == candidates(board@, 64),
        increasing(c@),
        forall|k: int| 0 <= k < c@.len() ==> is_candidate(board@, #[trigger] c@[k] as int),
        forall|i: int| is_candidate(board@, i) ==> #[trigger] c@.contains(i as usize),
{
    let mut c: Vec<usize> = Vec::new();
    let mut i: usize = 0;
    while i < 64
        invariant
            0 <= i <= 64,
            c@ == candidates(board@, i as int),
            increasing(c@),
            forall|k: int| 0 <= k < c@.len() ==> #[trigger] c@[k] < i,
            forall|k: int| 0 <= k < c@.len() ==> is_candidate(board@, #[trigger] c@[k] as int),
            forall|j: int| 0 <= j < i && is_candidate(board@, j) ==> #[trigger] c@.contains(j as usize),
        decreases 64 - i,
    {
        if board.pieces[i].is_some() && board.moves_used[i] < 2 {
            let ghost before = c@;
            c.push(i);
            assert forall|j: int| 0 <= j < i + 1 && is_candidate(board@, j) implies #[trigger] c@.contains(j as usize) by {
                if j < i {
                    assert(before.contains(j as usize));
                    let k = choose|k: int| 0 <= k < before.len() && before[k] == j as usize;
                    assert(c@[k] == j as usize);
                } else {
                    assert(c@[before.len() as int] == i);
                }
            }
        }
        i = i + 1;
    }
    c
}

/// The fallback board can be solved: the king takes the pawn.
pub proof fn lemma_fallback_solvable(pos: Position)
    requires
        is_fallback(pos),
    ensures
        is_puzzle(pos),
        count_pieces(pos.pieces) == 2,
{
    let p = pos.pieces;
    let only_king = p.update(36, None);
    assert forall|i: int| 0 <= i < 64 && i != 28 implies #[trigger] only_king[i] is None by {}
    let none = only_king.update(28, None);
    assert forall|i: int| 0 <= i < 64 implies #[trigger] none[i] is None by {}
    lemma_count_none(none);
    lemma_count_pieces_update(none, 28, Some(Piece::King));
    lemma_count_kings_update(none, 28, Some(Piece::King));
    assert(none.update(28, Some(Piece::King)) =~= only_king);
    lemma_count_pieces_update(only_king, 36, Some(Piece::Pawn));
    lemma_count_kings_update(only_king, 36, Some(Piece::Pawn));
    assert(only_king.update(36, Some(Piece::Pawn)) =~= p);
    assert(count_pieces(p) == 2);
    assert(count_kings(p) == 1);
    reveal_with_fuel(crate::board::jumps, 9);
    assert(crate::board::king_offsets()[6] == (1i8, 0i8));
    assert(moves_of(p, 28)[6] == 36usize);
    assert(valid_move(pos, 28, 36));
    law_capture_removes_one_piece(pos, 28, 36);
    let path = seq![(28int, 36int)];
    assert(path.drop_first() =~= Seq::<(int, int)>::empty());
    assert(is_won(after_move(pos, 28, 36)));
    assert(solves(after_move(pos, 28, 36), path.drop_first()));
    assert(solves(pos, path));
}

/// The backward step that the generator takes over the candidates in
/// `order` (see `first_step`).
fn choose_step(board: &Board, order: &Vec<usize>, rng: &mut Rng) -> (step: Option<(usize, usize, Piece)>)
    requires
        well_sized(board@),
        forall|j: int| 0 <= j < order@.len() ==> is_candidate(board@, #[trigger] order@[j] as int),
    ensures
        (step, final(rng).state()) == first_step(board@, order@, 0, old(rng).state()),
        step matches Some(c) ==> reverse_step_ok(board@, c.0 as int, c.1 as int, c.2),
{
    let non_king: [Piece; 5] = [Piece::Queen, Piece::Tower, Piece::Bishop, Piece::Knight, Piece::Pawn];
    assert(non_king@ =~= non_king_pieces());
    let ghost target = first_step(board@, order@, 0, rng.state());
    let mut choice: Option<(usize, usize, Piece)> = None;
    let n = order.len();
    let mut k: usize = 0;
    while k < n && choice.is_none()
        invariant
            n == order@.len(),
            0 <= k <= n,
            well_sized(board@),
            forall|j: int| 0 <= j < n ==> is_candidate(board@, #[trigger] order@[j] as int),
            non_king@ == non_king_pieces(),
            choice is None ==> first_step(board@, order@, k as int, rng.state()) == target,
            choice matches Some(c) ==> (choice, rng.state()) == target && reverse_step_ok(board@, c.0 as int, c.1 as int, c.2),
        decreases n - k + (if choice is None { 1int } else { 0int }),
    {
        let mover_idx = order[k];
        assert(is_candidate(board@, order@[k as int] as int));
        let mover_piece = board.pieces[mover_idx].unwrap();
        let origins = find_reverse_origins(board, mover_piece, mover_idx);
        if origins.len() > 0 {
            let origin = origins[rng.range(origins.len())];
            let captured = rng.pick(&non_king);
            choice = Some((origin, mover_idx, captured));
        } else {
            k = k + 1;
        }
    }
    choice
}

/// Tries to build a puzzle of the given level backwards from a solved
/// position: a lone king is placed at random, then, once per further piece,
/// a piece that may still capture is moved back to a square from which it
/// could have captured, and a random piece other than a king appears where
/// it stood (see `generation`). Gives up (`None`) when no piece can be moved back.
pub fn try_generate(level: u8, rng: &mut Rng) -> (r: Option<Board>)
    ensures
        (r is Some) == (generation(level, old(rng).state()).0 is Some),
        r matches Some(b) ==> b@ == generation(level, old(rng).state()).0->0,
        final(rng).state() == generation(level, old(rng).state()).1,
        r matches Some(b) ==> is_puzzle(b@) && count_pieces(b@.pieces) == pieces_for_level(level),
{
    let num_pieces = num_pieces_for_level(level);
    let mut board = Board::empty();
    let ghost e = board@.pieces;
    let ghost s0 = rng.state();
    let king_pos = rng.range(64);
    board.pieces[king_pos] = Some(Piece::King);
    board.moves_used[king_pos] = 0;
    let ghost target = build(board@, (num_pieces - 1) as nat, rng.state());
    proof {
        assert(board@.pieces =~= e.update(king_pos as int, Some(Piece::King)));
        assert(board@ =~= lone_king(king_pos as int));
        lemma_count_none(e);
        lemma_count_pieces_update(e, king_pos as int, Some(Piece::King));
        lemma_count_kings_update(e, king_pos as int, Some(Piece::King));
        lemma_single_piece_playable(board@);
        assert(king_pos == lcg(s0) % 64);
        assert(target == build(lone_king((lcg(s0) % 64) as int), (pieces_for_level(level) - 1) as nat, lcg(s0)));
    }
    let mut added: usize = 0;
    while added < num_pieces - 1
        invariant
            num_pieces == pieces_for_level(level),
            3 <= num_pieces <= 13,
            added <= num_pieces - 1,
            well_sized(board@),
            playable(board@),
            forall|i: int| 0 <= i < 64 ==> #[trigger] board@.used[i] <= 2,
            count_pieces(board@.pieces) == added + 1,
            count_kings(board@.pieces) == 1,
            build(board@, (num_pieces - 1 - added) as nat, rng.state()) == target,
            s0 == old(rng).state(),
            generation(level, s0) == (
                match target.0 {
                    Some(p) => Some(fresh_counts(p)),
                    None => None,
                },
                target.1,
            ),
        decreases num_pieces - 1 - added,
    {
        let ghost st = rng.state();
        let ghost remaining = (num_pieces - 1 - added) as nat;
        let mut order = capture_candidates(&board);
        if order.len() == 0 {
            assert(build(board@, remaining, st) == (None::<Position>, st));
            return None;
        }
        let ghost listed = order@;
        rng.shuffle(order.as_mut_slice());
        proof {
            assert(order@.to_multiset() == listed.to_multiset());
            assert forall|k: int| 0 <= k < order@.len() implies is_candidate(board@, #[trigger] order@[k] as int) by {
                let x = order@[k];
                assert(order@.contains(x));
                vstd::seq_lib::to_multiset_contains(order@, x);
                vstd::seq_lib::to_multiset_contains(listed, x);
                assert(listed.contains(x));
            }
        }
        let ghost s1 = rng.state();
        assert(shuffled(listed, st, listed.len() - 1) == (order@, s1));
        match choose_step(&board, &order, rng) {
            None => {
                assert(build(board@, remaining, st) == (None::<Position>, rng.state()));
                return None;
            },
            Some((origin, mover_idx, captured)) => {
                let ghost before = board@;
                proof {
                    lemma_reverse_step(before, origin as int, mover_idx as int, captured);
                }
                let mover_piece = board.pieces[mover_idx];
                let mover_will_make = board.moves_used[mover_idx];
                board.pieces[origin] = mover_piece;
                board.moves_used[origin] = mover_will_make + 1;
                board.pieces[mover_idx] = Some(captured);
                board.moves_used[mover_idx] = 0;
                assert(board@ == reverse_capture(before, origin as int, mover_idx as int, captured));
                assert(build(before, remaining, st) == build(board@, (remaining - 1) as nat, rng.state()));
            },
        }
        added = added + 1;
    }
    let ghost built = board@;
    board.moves_used = [0; 64];
    proof {
        assert(board@.pieces == built.pieces);
        assert(fits_plan(built.pieces, built.used, board@.used));
        assert(board@ == Position { pieces: built.pieces, used: board@.used });
        assert(board@ =~= fresh_counts(built));
    }
    Some(board)
}

/// A puzzle of the given level: the first of two hundred tries that
/// succeeds, else the fallback board (a king that takes a pawn); see
/// `generation_tries`.
pub fn generate(level: u8, rng: &mut Rng) -> (b: Board)
    ensures
        (b@, final(rng).state()) == generation_tries(level, old(rng).state(), 200),
        is_puzzle(b@),
        count_pieces(b@.pieces) == pieces_for_level(level) || is_fallback(b@),
        generation(level, old(rng).state()).0 matches Some(p) ==> b@ == p,
        count_pieces(b@.pieces) == pieces_for_level(level) <==> !all_tries_fail(level, old(rng).state(), 200),
        all_tries_fail(level, old(rng).state(), 200) ==> is_fallback(b@),
{
    let ghost target = generation_tries(level, rng.state(), 200);
    let mut attempt: u32 = 0;
    while attempt < 200
        invariant
            0 <= attempt <= 200,
            generation_tries(level, rng.state(), (200 - attempt) as nat) == target,
            target == generation_tries(level, old(rng).state(), 200),
            all_tries_fail(level, old(rng).state(), 200) <==> all_tries_fail(level, rng.state(), (200 - attempt) as nat),
            attempt > 0 ==> generation(level, old(rng).state()).0 is None,
            attempt == 0 ==> rng.state() == old(rng).state(),
        decreases 200 - attempt,
    {
        let ghost st = rng.state();
        if let Some(b) = try_generate(level, rng) {
            assert(generation_tries(level, st, (200 - attempt) as nat) == (b@, rng.state()));
            assert(!all_tries_fail(level, st, (200 - attempt) as nat));
            return b;
        }
        assert(all_tries_fail(level, st, (200 - attempt) as nat) == all_tries_fail(level, rng.state(), (200 - attempt - 1) as nat));
        attempt = attempt + 1;
    }
    let mut fallback = Board::empty();
    fallback.pieces[28] = Some(Piece::King);
    fallback.pieces[36] = Some(Piece::Pawn);
    proof {
        assert forall|i: int| 0 <= i < 64 && i != 28 && i != 36 implies #[trigger] fallback@.pieces[i] is None by {}
        assert(is_fallback(fallback@));
        lemma_fallback_solvable(fallback@);
        assert(fallback@ =~= fallback_position());
        law_pieces_grow(level, level);
    }
    fallback
}

} // verus!
