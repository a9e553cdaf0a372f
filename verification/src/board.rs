use vstd::prelude::*;

verus! {

/// A chess piece. All pieces belong to the same player in Solo Chess.
#[derive(Clone, Copy, PartialEq, Eq, Structural, Debug)]
pub enum Piece {
    King,
    Queen,
    Tower,
    Bishop,
    Knight,
    Pawn,
}

/// The mathematical model of a board: what stands on each of the 64
/// squares (row-major, row 0 at the top) and how many captures the piece
/// on each square has made so far.
#[verifier::ext_equal]
pub struct Position {
    pub pieces: Seq<Option<Piece>>,
    pub used: Seq<u8>,
}

/// A Solo Chess board.
#[derive(Clone, Copy)]
pub struct Board {
    pub pieces: [Option<Piece>; 64],
    pub moves_used: [u8; 64],
}

impl View for Board {
    type V = Position;

    open spec fn view(&self) -> Position {
        Position { pieces: self.pieces@, used: self.moves_used@ }
    }
}

pub open spec fn on_board(r: int, c: int) -> bool {
    0 <= r < 8 && 0 <= c < 8
}

pub open spec fn is_step(dr: int, dc: int) -> bool {
    -1 <= dr <= 1 && -1 <= dc <= 1 && !(dr == 0 && dc == 0)
}

/// Distance, counted in steps, from `(r, c)` to the edge that a walk in
/// direction `(dr, dc)` leaves the board through.
pub open spec fn steps_left(r: int, c: int, dr: int, dc: int) -> int {
    if dr > 0 {
        8 - r
    } else if dr < 0 {
        r + 1
    } else if dc > 0 {
        8 - c
    } else {
        c + 1
    }
}

/// The squares that a sliding piece reaches walking from `(r, c)` in
/// direction `(dr, dc)`: every square up to and including the first
/// occupied one, or up to the edge.
pub open spec fn ray(p: Seq<Option<Piece>>, r: int, c: int, dr: int, dc: int) -> Seq<usize>
    decreases steps_left(r, c, dr, dc),
{
    if !is_step(dr, dc) || !on_board(r, c) {
        Seq::empty()
    } else if p[r * 8 + c] is Some {
        seq![(r * 8 + c) as usize]
    } else {
        seq![(r * 8 + c) as usize] + ray(p, r + dr, c + dc, dr, dc)
    }
}

/// The rays from `(row, col)` in each of `dirs`, in order.
pub open spec fn slides(p: Seq<Option<Piece>>, row: int, col: int, dirs: Seq<(i8, i8)>) -> Seq<usize>
    decreases dirs.len(),
{
    if dirs.len() == 0 {
        Seq::empty()
    } else {
        let d = dirs.last();
        slides(p, row, col, dirs.drop_last()) + ray(p, row + d.0, col + d.1, d.0 as int, d.1 as int)
    }
}

/// The square `(row, col)` plus `d`, if it lies on the board.
pub open spec fn jump(row: int, col: int, d: (i8, i8)) -> Seq<usize> {
    if on_board(row + d.0, col + d.1) {
        seq![((row + d.0) * 8 + col + d.1) as usize]
    } else {
        Seq::empty()
    }
}

/// The squares `(row, col)` plus each of `offs` that lie on the board, in order.
pub open spec fn jumps(row: int, col: int, offs: Seq<(i8, i8)>) -> Seq<usize>
    decreases offs.len(),
{
    if offs.len() == 0 {
        Seq::empty()
    } else {
        jumps(row, col, offs.drop_last()) + jump(row, col, offs.last())
    }
}

pub open spec fn knight_offsets() -> Seq<(i8, i8)> {
    seq![(2i8, 1i8), (2i8, -1i8), (-2i8, 1i8), (-2i8, -1i8), (1i8, 2i8), (1i8, -2i8), (-1i8, 2i8), (-1i8, -2i8)]
}

pub open spec fn king_offsets() -> Seq<(i8, i8)> {
    seq![(-1i8, -1i8), (-1i8, 0i8), (-1i8, 1i8), (0i8, -1i8), (0i8, 1i8), (1i8, -1i8), (1i8, 0i8), (1i8, 1i8)]
}

/// A pawn captures one row up, diagonally.
pub open spec fn pawn_offsets() -> Seq<(i8, i8)> {
    seq![(-1i8, -1i8), (-1i8, 1i8)]
}

pub open spec fn tower_dirs() -> Seq<(i8, i8)> {
    seq![(0i8, 1i8), (0i8, -1i8), (1i8, 0i8), (-1i8, 0i8)]
}

pub open spec fn bishop_dirs() -> Seq<(i8, i8)> {
    seq![(1i8, 1i8), (1i8, -1i8), (-1i8, 1i8), (-1i8, -1i8)]
}

pub open spec fn queen_dirs() -> Seq<(i8, i8)> {
    seq![(0i8, 1i8), (0i8, -1i8), (1i8, 0i8), (-1i8, 0i8), (1i8, 1i8), (1i8, -1i8), (-1i8, 1i8), (-1i8, -1i8)]
}

/// The squares that the piece on `idx` attacks, in the order in which
/// `Board::moves` lists them. An empty square attacks nothing.
pub open spec fn moves_of(p: Seq<Option<Piece>>, idx: int) -> Seq<usize> {
    let row = idx / 8;
    let col = idx % 8;
    match p[idx] {
        None => Seq::empty(),
        Some(Piece::Knight) => jumps(row, col, knight_offsets()),
        Some(Piece::King) => jumps(row, col, king_offsets()),
        Some(Piece::Tower) => slides(p, row, col, tower_dirs()),
        Some(Piece::Bishop) => slides(p, row, col, bishop_dirs()),
        Some(Piece::Queen) => slides(p, row, col, queen_dirs()),
        Some(Piece::Pawn) => jumps(row, col, pawn_offsets()),
    }
}

/// How many squares of `p` hold a piece.
pub open spec fn count_pieces(p: Seq<Option<Piece>>) -> nat
    decreases p.len(),
{
    if p.len() == 0 {
        0
    } else {
        count_pieces(p.drop_last()) + if p.last() is Some { 1nat } else { 0nat }
    }
}

/// How many squares of `p` hold a king.
pub open spec fn count_kings(p: Seq<Option<Piece>>) -> nat
    decreases p.len(),
{
    if p.len() == 0 {
        0
    } else {
        count_kings(p.drop_last()) + if p.last() == Some(Piece::King) { 1nat } else { 0nat }
    }
}

/// A capture that the rules allow: the piece on `from` has captured fewer
/// than two times, attacks `to`, and `to` holds a piece other than a king.
pub open spec fn valid_move(pos: Position, from: int, to: int) -> bool {
    &&& 0 <= from < 64
    &&& 0 <= to < 64
    &&& pos.pieces[from] is Some
    &&& pos.used[from] < 2
    &&& pos.pieces[to] is Some
    &&& pos.pieces[to] != Some(Piece::King)
    &&& moves_of(pos.pieces, from).contains(to as usize)
}

/// The position after the piece on `from` moves to `to`: it takes `to`
/// with its capture count raised by one, and `from` is left empty.
pub open spec fn after_move(pos: Position, from: int, to: int) -> Position {
    Position {
        pieces: pos.pieces.update(to, pos.pieces[from]).update(from, None),
        used: pos.used.update(to, (pos.used[from] + 1) as u8).update(from, 0),
    }
}

/// The puzzle is solved when a single piece is left.
pub open spec fn is_won(pos: Position) -> bool {
    count_pieces(pos.pieces) == 1
}

/// Some capture is allowed.
pub open spec fn has_valid_move(pos: Position) -> bool {
    exists|from: int, to: int| #[trigger] valid_move(pos, from, to)
}

pub open spec fn small_offsets(offs: Seq<(i8, i8)>) -> bool {
    forall|i: int| 0 <= i < offs.len() ==> -2 <= #[trigger] offs[i].0 <= 2 && -2 <= offs[i].1 <= 2
}

pub open spec fn step_dirs(dirs: Seq<(i8, i8)>) -> bool {
    forall|i: int| 0 <= i < dirs.len() ==> is_step(#[trigger] dirs[i].0 as int, dirs[i].1 as int)
}

/// Appends to `targets` the squares `(row, col)` plus each of `offs` that lie on the board.
fn push_jumps(targets: &mut Vec<usize>, row: i8, col: i8, offs: &[(i8, i8)])
    requires
        0 <= row < 8,
        0 <= col < 8,
        small_offsets(offs@),
    ensures
        final(targets)@ == old(targets)@ + jumps(row as int, col as int, offs@),
{
    let n = offs.len();
    let mut i: usize = 0;
    while i < n
        invariant
            0 <= row < 8,
            0 <= col < 8,
            n == offs@.len(),
            small_offsets(offs@),
            0 <= i <= n,
            targets@ == old(targets)@ + jumps(row as int, col as int, offs@.take(i as int)),
        decreases n - i,
    {
        let (dr, dc) = offs[i];
        let r = row + dr;
        let c = col + dc;
        if r >= 0 && r < 8 && c >= 0 && c < 8 {
            targets.push(r as usize * 8 + c as usize);
        }
        assert(offs@.take(i + 1).drop_last() =~= offs@.take(i as int));
        i = i + 1;
    }
    assert(offs@.take(n as int) =~= offs@);
}

pub proof fn lemma_ray_in_range(p: Seq<Option<Piece>>, r: int, c: int, dr: int, dc: int)
    ensures
        forall|k: int| 0 <= k < ray(p, r, c, dr, dc).len() ==> #[trigger] ray(p, r, c, dr, dc)[k] < 64,
    decreases steps_left(r, c, dr, dc),
{
    if is_step(dr, dc) && on_board(r, c) && p[r * 8 + c] is None {
        lemma_ray_in_range(p, r + dr, c + dc, dr, dc);
        let rest = ray(p, r + dr, c + dc, dr, dc);
        assert forall|k: int| 0 <= k < ray(p, r, c, dr, dc).len() implies #[trigger] ray(p, r, c, dr, dc)[k] < 64 by {
            if k > 0 {
                assert(ray(p, r, c, dr, dc)[k] == rest[k - 1]);
            }
        }
    }
}

pub proof fn lemma_slides_in_range(p: Seq<Option<Piece>>, row: int, col: int, dirs: Seq<(i8, i8)>)
    ensures
        forall|k: int| 0 <= k < slides(p, row, col, dirs).len() ==> #[trigger] slides(p, row, col, dirs)[k] < 64,
    decreases dirs.len(),
{
    if dirs.len() > 0 {
        let d = dirs.last();
        let front = slides(p, row, col, dirs.drop_last());
        let back = ray(p, row + d.0, col + d.1, d.0 as int, d.1 as int);
        lemma_slides_in_range(p, row, col, dirs.drop_last());
        lemma_ray_in_range(p, row + d.0, col + d.1, d.0 as int, d.1 as int);
        assert forall|k: int| 0 <= k < slides(p, row, col, dirs).len() implies #[trigger] slides(p, row, col, dirs)[k] < 64 by {
            if k < front.len() {
                assert(slides(p, row, col, dirs)[k] == front[k]);
            } else {
                assert(slides(p, row, col, dirs)[k] == back[k - front.len()]);
            }
        }
    }
}

pub proof fn lemma_jumps_in_range(row: int, col: int, offs: Seq<(i8, i8)>)
    ensures
        forall|k: int| 0 <= k < jumps(row, col, offs).len() ==> #[trigger] jumps(row, col, offs)[k] < 64,
    decreases offs.len(),
{
    if offs.len() > 0 {
        let front = jumps(row, col, offs.drop_last());
        lemma_jumps_in_range(row, col, offs.drop_last());
        assert forall|k: int| 0 <= k < jumps(row, col, offs).len() implies #[trigger] jumps(row, col, offs)[k] < 64 by {
            if k < front.len() {
                assert(jumps(row, col, offs)[k] == front[k]);
            }
        }
    }
}

/// Every square that a piece attacks lies on the board.
pub proof fn lemma_moves_in_range(p: Seq<Option<Piece>>, idx: int)
    ensures
        forall|k: int| 0 <= k < moves_of(p, idx).len() ==> #[trigger] moves_of(p, idx)[k] < 64,
{
    let row = idx / 8;
    let col = idx % 8;
    lemma_jumps_in_range(row, col, knight_offsets());
    lemma_jumps_in_range(row, col, king_offsets());
    lemma_jumps_in_range(row, col, pawn_offsets());
    lemma_slides_in_range(p, row, col, tower_dirs());
    lemma_slides_in_range(p, row, col, bishop_dirs());
    lemma_slides_in_range(p, row, col, queen_dirs());
}

/// How far `(r, c)` lies ahead of `(row, col)` in direction `(dr, dc)`.
pub open spec fn progress(r: int, c: int, row: int, col: int, dr: int, dc: int) -> int {
    (r - row) * dr + (c - col) * dc
}

proof fn lemma_ray_ahead(p: Seq<Option<Piece>>, r: int, c: int, dr: int, dc: int, row: int, col: int)
    requires
        on_board(row, col),
        progress(r, c, row, col, dr, dc) >= 1,
    ensures
        !ray(p, r, c, dr, dc).contains((row * 8 + col) as usize),
    decreases steps_left(r, c, dr, dc),
{
    let s = ray(p, r, c, dr, dc);
    if is_step(dr, dc) && on_board(r, c) {
        if r * 8 + c == row * 8 + col {
            assert(r == row && c == col);
            assert(progress(r, c, row, col, dr, dc) == 0) by (nonlinear_arith)
                requires r == row, c == col;
        }
        assert(s[0] == (r * 8 + c) as usize);
        assert(s[0] != (row * 8 + col) as usize);
        if p[r * 8 + c] is None {
            assert(progress(r + dr, c + dc, row, col, dr, dc) >= progress(r, c, row, col, dr, dc)) by (nonlinear_arith)
                requires -1 <= dr <= 1, -1 <= dc <= 1;
            lemma_ray_ahead(p, r + dr, c + dc, dr, dc, row, col);
            let rest = ray(p, r + dr, c + dc, dr, dc);
            if s.contains((row * 8 + col) as usize) {
                let k = choose|k: int| 0 <= k < s.len() && s[k] == (row * 8 + col) as usize;
                assert(k > 0 ==> s[k] == rest[k - 1]);
            }
        } else {
            if s.contains((row * 8 + col) as usize) {
                let k = choose|k: int| 0 <= k < s.len() && s[k] == (row * 8 + col) as usize;
                assert(k == 0);
            }
        }
    }
}

proof fn lemma_slides_exclude(p: Seq<Option<Piece>>, row: int, col: int, dirs: Seq<(i8, i8)>)
    requires
        on_board(row, col),
        step_dirs(dirs),
    ensures
        !slides(p, row, col, dirs).contains((row * 8 + col) as usize),
    decreases dirs.len(),
{
    if dirs.len() > 0 {
        let d = dirs.last();
        let front = slides(p, row, col, dirs.drop_last());
        let back = ray(p, row + d.0, col + d.1, d.0 as int, d.1 as int);
        assert(step_dirs(dirs.drop_last()));
        lemma_slides_exclude(p, row, col, dirs.drop_last());
        assert(is_step(dirs[dirs.len() - 1].0 as int, dirs[dirs.len() - 1].1 as int));
        let dr = d.0 as int;
        let dc = d.1 as int;
        assert(progress(row + dr, col + dc, row, col, dr, dc) >= 1) by (nonlinear_arith)
            requires is_step(dr, dc);
        lemma_ray_ahead(p, row + dr, col + dc, dr, dc, row, col);
        let all = slides(p, row, col, dirs);
        if all.contains((row * 8 + col) as usize) {
            let k = choose|k: int| 0 <= k < all.len() && all[k] == (row * 8 + col) as usize;
            if k < front.len() {
                assert(all[k] == front[k]);
            } else {
                assert(all[k] == back[k - front.len()]);
            }
        }
    }
}

proof fn lemma_jumps_exclude(row: int, col: int, offs: Seq<(i8, i8)>)
    requires
        on_board(row, col),
        small_offsets(offs),
        forall|i: int| 0 <= i < offs.len() ==> #[trigger] offs[i] != (0i8, 0i8),
    ensures
        !jumps(row, col, offs).contains((row * 8 + col) as usize),
    decreases offs.len(),
{
    if offs.len() > 0 {
        let front = jumps(row, col, offs.drop_last());
        let d = offs.last();
        assert(offs[offs.len() - 1] != (0i8, 0i8));
        assert(-2 <= offs[offs.len() - 1].0 <= 2 && -2 <= offs[offs.len() - 1].1 <= 2);
        lemma_jumps_exclude(row, col, offs.drop_last());
        let all = jumps(row, col, offs);
        if all.contains((row * 8 + col) as usize) {
            let k = choose|k: int| 0 <= k < all.len() && all[k] == (row * 8 + col) as usize;
            if k < front.len() {
                assert(all[k] == front[k]);
            } else {
                assert((row + d.0) * 8 + col + d.1 == row * 8 + col);
            }
        }
    }
}

/// No piece attacks its own square.
pub proof fn lemma_moves_exclude_self(p: Seq<Option<Piece>>, idx: int)
    requires
        0 <= idx < 64,
    ensures
        !moves_of(p, idx).contains(idx as usize),
{
    let row = idx / 8;
    let col = idx % 8;
    assert(idx == row * 8 + col);
    assert(step_dirs(tower_dirs()));
    assert(step_dirs(bishop_dirs()));
    assert(step_dirs(queen_dirs()));
    lemma_jumps_exclude(row, col, knight_offsets());
    lemma_jumps_exclude(row, col, king_offsets());
    lemma_jumps_exclude(row, col, pawn_offsets());
    lemma_slides_exclude(p, row, col, tower_dirs());
    lemma_slides_exclude(p, row, col, bishop_dirs());
    lemma_slides_exclude(p, row, col, queen_dirs());
}

/// `p1` and `p2` have pieces on the same squares.
pub open spec fn same_occupancy(p1: Seq<Option<Piece>>, p2: Seq<Option<Piece>>) -> bool {
    &&& p1.len() == 64
    &&& p2.len() == 64
    &&& forall|i: int| 0 <= i < 64 ==> (#[trigger] p1[i] is Some) == (p2[i] is Some)
}

proof fn lemma_ray_same_occupancy(p1: Seq<Option<Piece>>, p2: Seq<Option<Piece>>, r: int, c: int, dr: int, dc: int)
    requires
        same_occupancy(p1, p2),
    ensures
        ray(p1, r, c, dr, dc) == ray(p2, r, c, dr, dc),
    decreases steps_left(r, c, dr, dc),
{
    if is_step(dr, dc) && on_board(r, c) {
        assert(p1[r * 8 + c] is Some == p2[r * 8 + c] is Some);
        lemma_ray_same_occupancy(p1, p2, r + dr, c + dc, dr, dc);
    }
}

proof fn lemma_slides_same_occupancy(p1: Seq<Option<Piece>>, p2: Seq<Option<Piece>>, row: int, col: int, dirs: Seq<(i8, i8)>)
    requires
        same_occupancy(p1, p2),
    ensures
        slides(p1, row, col, dirs) == slides(p2, row, col, dirs),
    decreases dirs.len(),
{
    if dirs.len() > 0 {
        let d = dirs.last();
        lemma_slides_same_occupancy(p1, p2, row, col, dirs.drop_last());
        lemma_ray_same_occupancy(p1, p2, row + d.0, col + d.1, d.0 as int, d.1 as int);
    }
}

/// What a piece attacks depends only on the piece and on which squares are occupied.
pub proof fn lemma_moves_same_occupancy(p1: Seq<Option<Piece>>, p2: Seq<Option<Piece>>, idx: int)
    requires
        same_occupancy(p1, p2),
        0 <= idx < 64,
        p1[idx] == p2[idx],
    ensures
        moves_of(p1, idx) == moves_of(p2, idx),
{
    let row = idx / 8;
    let col = idx % 8;
    lemma_slides_same_occupancy(p1, p2, row, col, tower_dirs());
    lemma_slides_same_occupancy(p1, p2, row, col, bishop_dirs());
    lemma_slides_same_occupancy(p1, p2, row, col, queen_dirs());
}

impl Board {
    /// A board with no piece on it.
    pub fn empty() -> (b: Board)
        ensures
            forall|i: int| 0 <= i < 64 ==> #[trigger] b@.pieces[i] is None,
            forall|i: int| 0 <= i < 64 ==> #[trigger] b@.used[i] == 0,
            b@.pieces.len() == 64,
            b@.used.len() == 64,
    {
        Board { pieces: [None; 64], moves_used: [0; 64] }
    }

    /// Appends to `targets` the squares that a sliding piece walking from
    /// `(r, c)` in direction `(dr, dc)` reaches.
    fn push_ray(&self, targets: &mut Vec<usize>, r: i8, c: i8, dr: i8, dc: i8)
        requires
            -1 <= r <= 8,
            -1 <= c <= 8,
            is_step(dr as int, dc as int),
        ensures
            final(targets)@ == old(targets)@ + ray(self@.pieces, r as int, c as int, dr as int, dc as int),
        decreases steps_left(r as int, c as int, dr as int, dc as int),
    {
        if r >= 0 && r < 8 && c >= 0 && c < 8 {
            let sq = r as usize * 8 + c as usize;
            targets.push(sq);
            if self.pieces[sq].is_none() {
                self.push_ray(targets, r + dr, c + dc, dr, dc);
            }
        }
    }

    /// Appends to `targets` the rays from `(row, col)` in each of `dirs`.
    fn push_slides(&self, targets: &mut Vec<usize>, row: i8, col: i8, dirs: &[(i8, i8)])
        requires
            0 <= row < 8,
            0 <= col < 8,
            step_dirs(dirs@),
        ensures
            final(targets)@ == old(targets)@ + slides(self@.pieces, row as int, col as int, dirs@),
    {
        let n = dirs.len();
        let mut i: usize = 0;
        while i < n
            invariant
                0 <= row < 8,
                0 <= col < 8,
                n == dirs@.len(),
                step_dirs(dirs@),
                0 <= i <= n,
                targets@ == old(targets)@ + slides(self@.pieces, row as int, col as int, dirs@.take(i as int)),
            decreases n - i,
        {
            let (dr, dc) = dirs[i];
            assert(is_step(dirs@[i as int].0 as int, dirs@[i as int].1 as int));
            self.push_ray(targets, row + dr, col + dc, dr, dc);
            assert(dirs@.take(i + 1).drop_last() =~= dirs@.take(i as int));
            i = i + 1;
        }
        assert(dirs@.take(n as int) =~= dirs@);
    }

    /// The squares that the piece on `index` attacks (for a pawn: the two
    /// squares diagonally above it). A sliding piece stops at the first
    /// occupied square, which it includes. An empty square attacks nothing.
    pub fn moves(&self, index: usize) -> (targets: Vec<usize>)
        requires
            index < 64,
        ensures
            targets@ == moves_of(self@.pieces, index as int),
    {
        let row = (index / 8) as i8;
        let col = (index % 8) as i8;
        let piece = match self.pieces[index] {
            Some(p) => p,
            None => return Vec::new(),
        };
        let mut targets: Vec<usize> = Vec::new();
        match piece {
            Piece::Knight => {
                let offsets: [(i8, i8); 8] = [(2, 1), (2, -1), (-2, 1), (-2, -1), (1, 2), (1, -2), (-1, 2), (-1, -2)];
                assert(offsets@ =~= knight_offsets());
                push_jumps(&mut targets, row, col, &offsets);
            },
            Piece::King => {
                let offsets: [(i8, i8); 8] = [(-1, -1), (-1, 0), (-1, 1), (0, -1), (0, 1), (1, -1), (1, 0), (1, 1)];
                assert(offsets@ =~= king_offsets());
                push_jumps(&mut targets, row, col, &offsets);
            },
            Piece::Tower => {
                let dirs: [(i8, i8); 4] = [(0, 1), (0, -1), (1, 0), (-1, 0)];
                assert(dirs@ =~= tower_dirs());
                self.push_slides(&mut targets, row, col, &dirs);
            },
            Piece::Bishop => {
                let dirs: [(i8, i8); 4] = [(1, 1), (1, -1), (-1, 1), (-1, -1)];
                assert(dirs@ =~= bishop_dirs());
                self.push_slides(&mut targets, row, col, &dirs);
            },
            Piece::Queen => {
                let dirs: [(i8, i8); 8] = [(0, 1), (0, -1), (1, 0), (-1, 0), (1, 1), (1, -1), (-1, 1), (-1, -1)];
                assert(dirs@ =~= queen_dirs());
                self.push_slides(&mut targets, row, col, &dirs);
            },
            Piece::Pawn => {
                let offsets: [(i8, i8); 2] = [(-1, -1), (-1, 1)];
                assert(offsets@ =~= pawn_offsets());
                push_jumps(&mut targets, row, col, &offsets);
            },
        }
        targets
    }

    /// Moves the piece on `from` to `to`: it takes `to` with its capture
    /// count raised by one, and `from` is left empty with a count of zero.
    pub fn make_move(&mut self, from: usize, to: usize)
        requires
            from < 64,
            to < 64,
            old(self)@.used[from as int] < 255,
        ensures
            final(self)@ == after_move(old(self)@, from as int, to as int),
    {
        let new_used = self.moves_used[from] + 1;
        self.pieces[to] = self.pieces[from];
        self.pieces[from] = None;
        self.moves_used[to] = new_used;
        self.moves_used[from] = 0;
    }

    /// How many pieces stand on the board.
    pub fn piece_count(&self) -> (n: usize)
        ensures
            n == count_pieces(self@.pieces),
    {
        let mut n: usize = 0;
        let mut i: usize = 0;
        while i < 64
            invariant
                0 <= i <= 64,
                n <= i,
                n == count_pieces(self@.pieces.take(i as int)),
            decreases 64 - i,
        {
            if self.pieces[i].is_some() {
                n = n + 1;
            }
            assert(self@.pieces.take(i + 1).drop_last() =~= self@.pieces.take(i as int));
            i = i + 1;
        }
        assert(self@.pieces.take(64) =~= self@.pieces);
        n
    }

    /// Whether a king stands on the board.
    pub fn has_king(&self) -> (b: bool)
        ensures
            b == self@.pieces.contains(Some(Piece::King)),
    {
        let mut i: usize = 0;
        while i < 64
            invariant
                0 <= i <= 64,
                forall|j: int| 0 <= j < i ==> self@.pieces[j] != Some(Piece::King),
            decreases 64 - i,
        {
            match self.pieces[i] {
                Some(Piece::King) => {
                    assert(self@.pieces[i as int] == Some(Piece::King));
                    return true;
                },
                _ => {},
            }
            i = i + 1;
        }
        false
    }

    /// The puzzle is solved: exactly one piece is left. (A king, when there
    /// is one, can never be captured, so it is then that last piece.)
    pub fn is_won(&self) -> (b: bool)
        ensures
            b == is_won(self@),
    {
        if self.piece_count() != 1 {
            return false;
        }
        if !self.has_king() {
            return true;
        }
        self.has_king()
    }

    /// Whether the piece on `from` may capture the piece on `to`.
    pub fn is_valid_move(&self, from: usize, to: usize) -> (b: bool)
        requires
            from < 64,
            to < 64,
        ensures
            b == valid_move(self@, from as int, to as int),
    {
        if self.pieces[from].is_none() {
            return false;
        }
        if self.moves_used[from] >= 2 {
            return false;
        }
        match self.pieces[to] {
            Some(Piece::King) => return false,
            Some(_) => {},
            None => return false,
        }
        let targets = self.moves(from);
        let n = targets.len();
        let mut k: usize = 0;
        while k < n
            invariant
                from < 64,
                to < 64,
                self@.pieces[from as int] is Some,
                self@.used[from as int] < 2,
                self@.pieces[to as int] is Some,
                self@.pieces[to as int] != Some(Piece::King),
                n == targets@.len(),
                targets@ == moves_of(self@.pieces, from as int),
                0 <= k <= n,
                forall|j: int| 0 <= j < k ==> targets@[j] != to,
            decreases n - k,
        {
            if targets[k] == to {
                assert(targets@[k as int] == to);
                assert(moves_of(self@.pieces, from as int).contains(to));
                return true;
            }
            k = k + 1;
        }
        false
    }

    /// Whether any capture is allowed; a board with more than one piece
    /// and none is a dead end.
    pub fn has_any_valid_move(&self) -> (b: bool)
        ensures
            b == has_valid_move(self@),
    {
        let mut from: usize = 0;
        while from < 64
            invariant
                0 <= from <= 64,
                forall|f: int, t: int| 0 <= f < from ==> !#[trigger] valid_move(self@, f, t),
            decreases 64 - from,
        {
            if self.pieces[from].is_some() && self.moves_used[from] < 2 {
                let targets = self.moves(from);
                proof {
                    lemma_moves_in_range(self@.pieces, from as int);
                }
                let n = targets.len();
                let mut k: usize = 0;
                while k < n
                    invariant
                        0 <= from < 64,
                        n == targets@.len(),
                        targets@ == moves_of(self@.pieces, from as int),
                        forall|j: int| 0 <= j < n ==> #[trigger] targets@[j] < 64,
                        0 <= k <= n,
                        forall|j: int| 0 <= j < k ==> !valid_move(self@, from as int, #[trigger] targets@[j] as int),
                    decreases n - k,
                {
                    assert(targets@[k as int] < 64);
                    if self.is_valid_move(from, targets[k]) {
                        return true;
                    }
                    k = k + 1;
                }
                assert forall|t: int| !#[trigger] valid_move(self@, from as int, t) by {
                    if valid_move(self@, from as int, t) {
                        let j = choose|j: int| 0 <= j < n && targets@[j] == t as usize;
                        assert(!valid_move(self@, from as int, targets@[j] as int));
                    }
                }
            }
            from = from + 1;
        }
        false
    }
}

/// The square `k` steps from `(r, c)` in direction `(dr, dc)`.
pub open spec fn step_square(r: int, c: int, dr: int, dc: int, k: int) -> int {
    (r + k * dr) * 8 + c + k * dc
}

/// Whether the square `k` steps from `(r, c)` in direction `(dr, dc)` lies
/// on the board.
pub open spec fn step_on_board(r: int, c: int, dr: int, dc: int, k: int) -> bool {
    on_board(r + k * dr, c + k * dc)
}

/// The `i`-th square of a ray is the one `i` steps along it, on the board,
/// and every square of the ray but its last is empty.
proof fn lemma_ray_items(p: Seq<Option<Piece>>, r: int, c: int, dr: int, dc: int)
    requires
        p.len() == 64,
    ensures
        forall|i: int|
            #![trigger ray(p, r, c, dr, dc)[i]]
            #![trigger step_on_board(r, c, dr, dc, i)]
            0 <= i < ray(p, r, c, dr, dc).len() ==> step_on_board(r, c, dr, dc, i) && ray(p, r, c, dr, dc)[i]
                == step_square(r, c, dr, dc, i),
        forall|j: int| 0 <= j < ray(p, r, c, dr, dc).len() - 1 ==> p[#[trigger] step_square(r, c, dr, dc, j)] is None,
    decreases steps_left(r, c, dr, dc),
{
    assert(r + 0 * dr == r && c + 0 * dc == c);
    assert(step_square(r, c, dr, dc, 0) == r * 8 + c);
    if is_step(dr, dc) && on_board(r, c) && p[r * 8 + c] is None {
        lemma_ray_items(p, r + dr, c + dc, dr, dc);
        let rest = ray(p, r + dr, c + dc, dr, dc);
        assert(ray(p, r, c, dr, dc) =~= seq![(r * 8 + c) as usize] + rest);
        assert forall|i: int|
            #![trigger ray(p, r, c, dr, dc)[i]]
            #![trigger step_on_board(r, c, dr, dc, i)]
            0 <= i < ray(p, r, c, dr, dc).len() implies step_on_board(r, c, dr, dc, i) && ray(p, r, c, dr, dc)[i]
                == step_square(r, c, dr, dc, i) by {
            if i > 0 {
                assert(ray(p, r, c, dr, dc)[i] == rest[i - 1]);
                assert(step_on_board(r + dr, c + dc, dr, dc, i - 1));
                assert(r + dr + (i - 1) * dr == r + i * dr && c + dc + (i - 1) * dc == c + i * dc) by (nonlinear_arith);
                assert(step_square(r + dr, c + dc, dr, dc, i - 1) == step_square(r, c, dr, dc, i));
            } else {
                assert(i * dr == 0 && i * dc == 0);
            }
        }
        assert forall|j: int| 0 <= j < ray(p, r, c, dr, dc).len() - 1 implies p[#[trigger] step_square(r, c, dr, dc, j)] is None by {
            if j > 0 {
                assert(r + dr + (j - 1) * dr == r + j * dr && c + dc + (j - 1) * dc == c + j * dc) by (nonlinear_arith);
                assert(step_square(r + dr, c + dc, dr, dc, j - 1) == step_square(r, c, dr, dc, j));
            }
        }
    } else if is_step(dr, dc) && on_board(r, c) {
        assert(ray(p, r, c, dr, dc).len() == 1 && ray(p, r, c, dr, dc)[0] == (r * 8 + c) as usize);
        assert forall|i: int|
            #![trigger ray(p, r, c, dr, dc)[i]]
            #![trigger step_on_board(r, c, dr, dc, i)]
            0 <= i < ray(p, r, c, dr, dc).len() implies step_on_board(r, c, dr, dc, i) && ray(p, r, c, dr, dc)[i]
                == step_square(r, c, dr, dc, i) by {
            assert(i == 0 && i * dr == 0 && i * dc == 0);
        }
    } else {
        assert(ray(p, r, c, dr, dc).len() == 0);
    }
}

/// A sliding piece's ray holds exactly the squares on its line with
/// nothing in between: the square `k` steps along belongs to the ray when,
/// and only when, every square before it lies on the board and is empty.
#[verifier::rlimit(40)]
pub proof fn law_ray_squares(p: Seq<Option<Piece>>, r: int, c: int, dr: int, dc: int, k: int)
    requires
        p.len() == 64,
        is_step(dr, dc),
        k >= 0,
        on_board(r + k * dr, c + k * dc),
    ensures
        ray(p, r, c, dr, dc).contains(step_square(r, c, dr, dc, k) as usize) <==> forall|j: int| 0 <= j < k
            ==> on_board(r + j * dr, c + j * dc) && p[#[trigger] step_square(r, c, dr, dc, j)] is None,
    decreases k,
{
    let s = ray(p, r, c, dr, dc);
    let target = step_square(r, c, dr, dc, k);
    lemma_ray_items(p, r, c, dr, dc);
    assert(0 <= target < 64);
    if s.contains(target as usize) {
        let i = choose|i: int| 0 <= i < s.len() && s[i] == target as usize;
        assert(s[i] == step_square(r, c, dr, dc, i));
        assert(on_board(r + i * dr, c + i * dc));
        assert(r + i * dr == r + k * dr && c + i * dc == c + k * dc);
        assert(i == k) by (nonlinear_arith)
            requires
                r + i * dr == r + k * dr,
                c + i * dc == c + k * dc,
                -1 <= dr <= 1,
                -1 <= dc <= 1,
                !(dr == 0 && dc == 0),
        ;
        assert forall|j: int| 0 <= j < k implies on_board(r + j * dr, c + j * dc) && p[#[trigger] step_square(r, c, dr, dc, j)] is None by {
            assert(s[j] == step_square(r, c, dr, dc, j));
        }
    }
    if forall|j: int| 0 <= j < k ==> on_board(r + j * dr, c + j * dc) && p[#[trigger] step_square(r, c, dr, dc, j)] is None {
        if k == 0 {
            assert(r + 0 * dr == r && c + 0 * dc == c);
            assert(s[0] == (r * 8 + c) as usize);
            assert(target == r * 8 + c);
        } else {
            assert(r + 0 * dr == r && c + 0 * dc == c);
            assert(on_board(r, c) && p[step_square(r, c, dr, dc, 0)] is None);
            assert(step_square(r, c, dr, dc, 0) == r * 8 + c);
            assert(r + dr + (k - 1) * dr == r + k * dr && c + dc + (k - 1) * dc == c + k * dc) by (nonlinear_arith);
            assert forall|j: int| 0 <= j < k - 1 implies on_board(r + dr + j * dr, c + dc + j * dc)
                && p[#[trigger] step_square(r + dr, c + dc, dr, dc, j)] is None by {
                assert(r + dr + j * dr == r + (j + 1) * dr && c + dc + j * dc == c + (j + 1) * dc) by (nonlinear_arith);
                assert(step_square(r + dr, c + dc, dr, dc, j) == step_square(r, c, dr, dc, j + 1));
            }
            law_ray_squares(p, r + dr, c + dc, dr, dc, k - 1);
            let rest = ray(p, r + dr, c + dc, dr, dc);
            assert(step_square(r + dr, c + dc, dr, dc, k - 1) == target);
            let m = choose|m: int| 0 <= m < rest.len() && rest[m] == target as usize;
            assert(s[m + 1] == rest[m]);
        }
    }
}

/// The directions in which a piece slides: none for those that jump.
pub open spec fn slide_dirs(piece: Piece) -> Seq<(i8, i8)> {
    match piece {
        Piece::Tower => tower_dirs(),
        Piece::Bishop => bishop_dirs(),
        Piece::Queen => queen_dirs(),
        _ => Seq::empty(),
    }
}

/// Square `t` lies `k` steps from `(r, c)` in direction `(dr, dc)`, on the
/// board, and the squares between them are empty.
pub open spec fn in_clear_line(p: Seq<Option<Piece>>, r: int, c: int, dr: int, dc: int, k: int, t: int) -> bool {
    &&& step_on_board(r, c, dr, dc, k)
    &&& t == step_square(r, c, dr, dc, k)
    &&& forall|j: int| 1 <= j < k ==> p[#[trigger] step_square(r, c, dr, dc, j)] is None
}

/// A square of `slides` is a square of the ray in one of the directions.
proof fn lemma_slides_contains(p: Seq<Option<Piece>>, row: int, col: int, dirs: Seq<(i8, i8)>, t: usize)
    ensures
        slides(p, row, col, dirs).contains(t) <==> exists|i: int|
            0 <= i < dirs.len() && #[trigger] ray(p, row + dirs[i].0, col + dirs[i].1, dirs[i].0 as int, dirs[i].1 as int).contains(t),
    decreases dirs.len(),
{
    if dirs.len() > 0 {
        let pre = dirs.drop_last();
        let d = dirs.last();
        lemma_slides_contains(p, row, col, pre, t);
        let head = slides(p, row, col, pre);
        let last = ray(p, row + d.0, col + d.1, d.0 as int, d.1 as int);
        let all = slides(p, row, col, dirs);
        assert(all == head + last);
        if all.contains(t) {
            let m = choose|m: int| 0 <= m < all.len() && all[m] == t;
            if m < head.len() {
                assert(head[m] == t);
                let i = choose|i: int|
                    0 <= i < pre.len() && #[trigger] ray(p, row + pre[i].0, col + pre[i].1, pre[i].0 as int, pre[i].1 as int).contains(t);
                assert(pre[i] == dirs[i]);
            } else {
                assert(last[m - head.len()] == t);
                assert(last.contains(t));
                assert(dirs[dirs.len() - 1] == d);
            }
        }
        if exists|i: int|
            0 <= i < dirs.len() && #[trigger] ray(p, row + dirs[i].0, col + dirs[i].1, dirs[i].0 as int, dirs[i].1 as int).contains(t) {
            let i = choose|i: int|
                0 <= i < dirs.len() && #[trigger] ray(p, row + dirs[i].0, col + dirs[i].1, dirs[i].0 as int, dirs[i].1 as int).contains(t);
            if i < pre.len() {
                assert(pre[i] == dirs[i]);
                assert(ray(p, row + pre[i].0, col + pre[i].1, pre[i].0 as int, pre[i].1 as int).contains(t));
                let m = choose|m: int| 0 <= m < head.len() && head[m] == t;
                assert(all[m] == t);
            } else {
                assert(dirs[i] == d);
                let m = choose|m: int| 0 <= m < last.len() && last[m] == t;
                assert(all[head.len() + m] == t);
            }
        }
    }
}

/// A step of at most one square each way keeps a walk between its ends.
proof fn lemma_between(r: int, dr: int, j: int, k: int)
    requires
        0 <= r < 8,
        0 <= r + k * dr < 8,
        -1 <= dr <= 1,
        0 <= j <= k,
    ensures
        0 <= r + j * dr < 8,
{
    if dr == 1 {
        assert(j * dr == j && k * dr == k) by (nonlinear_arith)
            requires
                dr == 1,
        ;
    } else if dr == -1 {
        assert(j * dr == -j && k * dr == -k) by (nonlinear_arith)
            requires
                dr == -1,
        ;
    } else {
        assert(j * dr == 0) by (nonlinear_arith)
            requires
                dr == 0,
        ;
    }
}

/// A tower, bishop or queen attacks exactly the squares along its lines with
/// nothing between: square `t` is a move of the piece on `idx` when, and
/// only when, for one of its directions and some `k >= 1`, `t` lies `k`
/// steps along that direction and the squares before it are empty.
pub proof fn law_slider_moves(p: Seq<Option<Piece>>, idx: int, t: int)
    requires
        p.len() == 64,
        0 <= idx < 64,
        0 <= t < 64,
        p[idx] is Some,
        slide_dirs(p[idx].unwrap()).len() > 0,
    ensures
        moves_of(p, idx).contains(t as usize) <==> exists|i: int, k: int|
            0 <= i < slide_dirs(p[idx].unwrap()).len() && k >= 1 && #[trigger] in_clear_line(
                p,
                idx / 8,
                idx % 8,
                slide_dirs(p[idx].unwrap())[i].0 as int,
                slide_dirs(p[idx].unwrap())[i].1 as int,
                k,
                t,
            ),
{
    let row = idx / 8;
    let col = idx % 8;
    let dirs = slide_dirs(p[idx].unwrap());
    assert(moves_of(p, idx) == slides(p, row, col, dirs));
    lemma_slides_contains(p, row, col, dirs, t as usize);
    assert forall|i: int| 0 <= i < dirs.len() implies is_step(dirs[i].0 as int, dirs[i].1 as int) by {
        assert(dirs == tower_dirs() || dirs == bishop_dirs() || dirs == queen_dirs());
    }
    if moves_of(p, idx).contains(t as usize) {
        let i = choose|i: int|
            0 <= i < dirs.len() && #[trigger] ray(p, row + dirs[i].0, col + dirs[i].1, dirs[i].0 as int, dirs[i].1 as int).contains(t as usize);
        let dr = dirs[i].0 as int;
        let dc = dirs[i].1 as int;
        let s = ray(p, row + dr, col + dc, dr, dc);
        lemma_ray_items(p, row + dr, col + dc, dr, dc);
        let m = choose|m: int| 0 <= m < s.len() && s[m] == t as usize;
        assert(step_on_board(row + dr, col + dc, dr, dc, m));
        assert(row + dr + m * dr == row + (m + 1) * dr && col + dc + m * dc == col + (m + 1) * dc) by (nonlinear_arith);
        assert(step_square(row + dr, col + dc, dr, dc, m) == step_square(row, col, dr, dc, m + 1));
        assert forall|j: int| 1 <= j < m + 1 implies p[#[trigger] step_square(row, col, dr, dc, j)] is None by {
            assert(row + dr + (j - 1) * dr == row + j * dr && col + dc + (j - 1) * dc == col + j * dc) by (nonlinear_arith);
            assert(step_square(row + dr, col + dc, dr, dc, j - 1) == step_square(row, col, dr, dc, j));
        }
        assert(in_clear_line(p, row, col, dr, dc, m + 1, t));
    }
    if exists|i: int, k: int| 0 <= i < dirs.len() && k >= 1 && #[trigger] in_clear_line(p, row, col, dirs[i].0 as int, dirs[i].1 as int, k, t) {
        let (i, k) = choose|i: int, k: int| 0 <= i < dirs.len() && k >= 1 && #[trigger] in_clear_line(p, row, col, dirs[i].0 as int, dirs[i].1 as int, k, t);
        let dr = dirs[i].0 as int;
        let dc = dirs[i].1 as int;
        assert(is_step(dr, dc));
        assert(row + dr + (k - 1) * dr == row + k * dr && col + dc + (k - 1) * dc == col + k * dc) by (nonlinear_arith);
        assert(step_square(row + dr, col + dc, dr, dc, k - 1) == step_square(row, col, dr, dc, k));
        assert forall|j: int| 0 <= j < k - 1 implies on_board(row + dr + j * dr, col + dc + j * dc)
            && p[#[trigger] step_square(row + dr, col + dc, dr, dc, j)] is None by {
            assert(row + dr + j * dr == row + (j + 1) * dr && col + dc + j * dc == col + (j + 1) * dc) by (nonlinear_arith);
            assert(step_square(row + dr, col + dc, dr, dc, j) == step_square(row, col, dr, dc, j + 1));
            lemma_between(row, dr, j + 1, k);
            lemma_between(col, dc, j + 1, k);
        }
        law_ray_squares(p, row + dr, col + dc, dr, dc, k - 1);
        assert(ray(p, row + dr, col + dc, dr, dc).contains(t as usize));
    }
}

/// Square `t` is `(row, col)` plus `d`, on the board.
pub open spec fn lands(row: int, col: int, d: (i8, i8), t: int) -> bool {
    on_board(row + d.0, col + d.1) && t == (row + d.0) * 8 + col + d.1
}

/// A square of the board lies at `d` from `(row, col)` exactly when its row
/// and column differ from them by `d`.
proof fn lemma_lands(row: int, col: int, d: (i8, i8), t: int)
    requires
        0 <= t < 64,
    ensures
        lands(row, col, d, t) <==> (t / 8 == row + d.0 && t % 8 == col + d.1),
{
}

/// The squares that `jumps` lists are those at one of the offsets that
/// stay on the board.
proof fn lemma_jumps_contains(row: int, col: int, offs: Seq<(i8, i8)>, t: int)
    requires
        0 <= t < 64,
    ensures
        jumps(row, col, offs).contains(t as usize) <==> exists|k: int| 0 <= k < offs.len() && #[trigger] lands(row, col, offs[k], t),
    decreases offs.len(),
{
    if offs.len() > 0 {
        let front = offs.drop_last();
        let d = offs.last();
        lemma_jumps_contains(row, col, front, t);
        let a = jumps(row, col, front);
        let b = jump(row, col, d);
        let all = jumps(row, col, offs);
        assert(all == a + b);
        if all.contains(t as usize) {
            let m = choose|m: int| 0 <= m < all.len() && all[m] == t as usize;
            if m < a.len() {
                assert(a[m] == t as usize);
                let k = choose|k: int| 0 <= k < front.len() && #[trigger] lands(row, col, front[k], t);
                assert(offs[k] == front[k]);
            } else {
                assert(b[m - a.len()] == t as usize);
                assert(offs[offs.len() - 1] == d);
                assert(lands(row, col, offs[offs.len() - 1], t));
            }
        }
        if exists|k: int| 0 <= k < offs.len() && #[trigger] lands(row, col, offs[k], t) {
            let k = choose|k: int| 0 <= k < offs.len() && #[trigger] lands(row, col, offs[k], t);
            if k < front.len() {
                assert(front[k] == offs[k]);
                assert(lands(row, col, front[k], t));
                let m = choose|m: int| 0 <= m < a.len() && a[m] == t as usize;
                assert(all[m] == t as usize);
            } else {
                assert(offs[k] == d);
                assert(b[0] == t as usize);
                assert(all[a.len() as int] == t as usize);
            }
        }
    } else {
        assert(jumps(row, col, offs) =~= Seq::<usize>::empty());
    }
}

/// What the jumping pieces attack, square by square: with `dr` and `dc`
/// the rows and columns from the piece's square to square `t`, a pawn
/// attacks the squares one row up and one column to either side, a king
/// the eight squares around it, and a knight the squares two rows and one
/// column, or one row and two columns, away; none of them wraps round an
/// edge of the board.
pub proof fn law_jumping_moves(p: Seq<Option<Piece>>, idx: int, t: int)
    requires
        p.len() == 64,
        0 <= idx < 64,
        0 <= t < 64,
    ensures
        ({
            let dr = t / 8 - idx / 8;
            let dc = t % 8 - idx % 8;
            &&& p[idx] == Some(Piece::Pawn) ==> (moves_of(p, idx).contains(t as usize) <==> dr == -1 && (dc == -1
                || dc == 1))
            &&& p[idx] == Some(Piece::King) ==> (moves_of(p, idx).contains(t as usize) <==> -1 <= dr <= 1 && -1 <= dc <= 1
                && !(dr == 0 && dc == 0))
            &&& p[idx] == Some(Piece::Knight) ==> (moves_of(p, idx).contains(t as usize) <==> ((dr == 2 || dr == -2) && (dc
                == 1 || dc == -1)) || ((dr == 1 || dr == -1) && (dc == 2 || dc == -2)))
        }),
{
    let row = idx / 8;
    let col = idx % 8;
    let dr = t / 8 - idx / 8;
    let dc = t % 8 - idx % 8;
    let po = pawn_offsets();
    let ko = king_offsets();
    let no = knight_offsets();
    lemma_jumps_contains(row, col, po, t);
    lemma_jumps_contains(row, col, ko, t);
    lemma_jumps_contains(row, col, no, t);
    assert forall|k: int| 0 <= k < po.len() implies (#[trigger] lands(row, col, po[k], t) <==> (po[k].0 == dr && po[k].1 == dc)) by {
        lemma_lands(row, col, po[k], t);
    }
    assert forall|k: int| 0 <= k < ko.len() implies (#[trigger] lands(row, col, ko[k], t) <==> (ko[k].0 == dr && ko[k].1 == dc)) by {
        lemma_lands(row, col, ko[k], t);
    }
    assert forall|k: int| 0 <= k < no.len() implies (#[trigger] lands(row, col, no[k], t) <==> (no[k].0 == dr && no[k].1 == dc)) by {
        lemma_lands(row, col, no[k], t);
    }
    assert(po[0] == (-1i8, -1i8) && po[1] == (-1i8, 1i8));
    assert(ko[0] == (-1i8, -1i8) && ko[1] == (-1i8, 0i8) && ko[2] == (-1i8, 1i8) && ko[3] == (0i8, -1i8));
    assert(ko[4] == (0i8, 1i8) && ko[5] == (1i8, -1i8) && ko[6] == (1i8, 0i8) && ko[7] == (1i8, 1i8));
    assert(no[0] == (2i8, 1i8) && no[1] == (2i8, -1i8) && no[2] == (-2i8, 1i8) && no[3] == (-2i8, -1i8));
    assert(no[4] == (1i8, 2i8) && no[5] == (1i8, -2i8) && no[6] == (-1i8, 2i8) && no[7] == (-1i8, -2i8));
    if dr == -1 && dc == -1 {
        assert(lands(row, col, po[0], t) && lands(row, col, ko[0], t));
    }
    if dr == -1 && dc == 1 {
        assert(lands(row, col, po[1], t) && lands(row, col, ko[2], t));
    }
    if dr == -1 && dc == 0 {
        assert(lands(row, col, ko[1], t));
    }
    if dr == 0 && dc == -1 {
        assert(lands(row, col, ko[3], t));
    }
    if dr == 0 && dc == 1 {
        assert(lands(row, col, ko[4], t));
    }
    if dr == 1 && dc == -1 {
        assert(lands(row, col, ko[5], t));
    }
    if dr == 1 && dc == 0 {
        assert(lands(row, col, ko[6], t));
    }
    if dr == 1 && dc == 1 {
        assert(lands(row, col, ko[7], t));
    }
    if dr == 2 && dc == 1 {
        assert(lands(row, col, no[0], t));
    }
    if dr == 2 && dc == -1 {
        assert(lands(row, col, no[1], t));
    }
    if dr == -2 && dc == 1 {
        assert(lands(row, col, no[2], t));
    }
    if dr == -2 && dc == -1 {
        assert(lands(row, col, no[3], t));
    }
    if dr == 1 && dc == 2 {
        assert(lands(row, col, no[4], t));
    }
    if dr == 1 && dc == -2 {
        assert(lands(row, col, no[5], t));
    }
    if dr == -1 && dc == 2 {
        assert(lands(row, col, no[6], t));
    }
    if dr == -1 && dc == -2 {
        assert(lands(row, col, no[7], t));
    }
}

} // verus!
