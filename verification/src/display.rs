use vstd::prelude::*;
use crate::board::{Board, Piece};
use crate::text::push_char;

verus! {

/// The Unicode chess glyph of a piece (black set, drawn light on the board).
pub open spec fn glyph_of(p: Piece) -> char {
    match p {
        Piece::King => '\u{265A}',
        Piece::Queen => '\u{265B}',
        Piece::Tower => '\u{265C}',
        Piece::Bishop => '\u{265D}',
        Piece::Knight => '\u{265E}',
        Piece::Pawn => '\u{265F}',
    }
}

/// The Unicode chess glyph of a piece.
pub fn piece_glyph(p: Piece) -> (c: char)
    ensures
        c == glyph_of(p),
{
    match p {
        Piece::King => '\u{265A}',
        Piece::Queen => '\u{265B}',
        Piece::Tower => '\u{265C}',
        Piece::Bishop => '\u{265D}',
        Piece::Knight => '\u{265E}',
        Piece::Pawn => '\u{265F}',
    }
}

/// The number under which a piece's picture is sent to the terminal.
pub open spec fn image_id_of(p: Piece) -> u32 {
    match p {
        Piece::King => 1,
        Piece::Queen => 2,
        Piece::Tower => 3,
        Piece::Bishop => 4,
        Piece::Knight => 5,
        Piece::Pawn => 6,
    }
}

/// The number under which a piece's picture is sent to the terminal.
pub fn piece_image_id(p: Piece) -> (id: u32)
    ensures
        id == image_id_of(p),
{
    match p {
        Piece::King => 1,
        Piece::Queen => 2,
        Piece::Tower => 3,
        Piece::Bishop => 4,
        Piece::Knight => 5,
        Piece::Pawn => 6,
    }
}

/// The five rows, five pixels wide (highest bit leftmost), of the block
/// letters that spell the title; any other letter is blank.
pub open spec fn letter_rows(c: char) -> Seq<u8> {
    if c == 'S' {
        seq![0b11111u8, 0b10000u8, 0b11111u8, 0b00001u8, 0b11111u8]
    } else if c == 'O' {
        seq![0b11111u8, 0b10001u8, 0b10001u8, 0b10001u8, 0b11111u8]
    } else if c == 'L' {
        seq![0b10000u8, 0b10000u8, 0b10000u8, 0b10000u8, 0b11111u8]
    } else if c == 'C' {
        seq![0b11111u8, 0b10000u8, 0b10000u8, 0b10000u8, 0b11111u8]
    } else if c == 'H' {
        seq![0b10001u8, 0b10001u8, 0b11111u8, 0b10001u8, 0b10001u8]
    } else if c == 'E' {
        seq![0b11111u8, 0b10000u8, 0b11111u8, 0b10000u8, 0b11111u8]
    } else {
        seq![0u8, 0u8, 0u8, 0u8, 0u8]
    }
}

/// The block letter for `c`, row by row.
pub fn letter_glyph(c: char) -> (rows: [u8; 5])
    ensures
        rows@ == letter_rows(c),
{
    let rows: [u8; 5] = match c {
        'S' => [0b11111, 0b10000, 0b11111, 0b00001, 0b11111],
        'O' => [0b11111, 0b10001, 0b10001, 0b10001, 0b11111],
        'L' => [0b10000, 0b10000, 0b10000, 0b10000, 0b11111],
        'C' => [0b11111, 0b10000, 0b10000, 0b10000, 0b11111],
        'H' => [0b10001, 0b10001, 0b11111, 0b10001, 0b10001],
        'E' => [0b11111, 0b10000, 0b11111, 0b10000, 0b11111],
        _ => [0; 5],
    };
    assert(rows@ =~= letter_rows(c));
    rows
}

/// The first occupied square, if any.
pub fn first_piece(board: &Board) -> (r: Option<usize>)
    ensures
        r is None <==> forall|i: int| 0 <= i < 64 ==> #[trigger] board@.pieces[i] is None,
        r matches Some(i) ==> i < 64 && board@.pieces[i as int] is Some
            && forall|j: int| 0 <= j < i ==> #[trigger] board@.pieces[j] is None,
{
    let mut i: usize = 0;
    while i < 64
        invariant
            0 <= i <= 64,
            forall|j: int| 0 <= j < i ==> #[trigger] board@.pieces[j] is None,
        decreases 64 - i,
    {
        if board.pieces[i].is_some() {
            return Some(i);
        }
        i = i + 1;
    }
    None
}

/// How far square `idx` lies from square `cur` along direction `(dr, dc)`.
pub open spec fn along(cur: int, idx: int, dr: int, dc: int) -> int {
    (idx / 8 - cur / 8) * dr + (idx % 8 - cur % 8) * dc
}

pub open spec fn abs(x: int) -> int {
    if x < 0 { -x } else { x }
}

/// A piece other than the one on `cur` that lies ahead in direction `(dr, dc)`.
pub open spec fn ahead(board: Board, cur: int, idx: int, dr: int, dc: int) -> bool {
    &&& 0 <= idx < 64
    &&& idx != cur
    &&& board@.pieces[idx] is Some
    &&& along(cur, idx, dr, dc) > 0
}

/// How many rows lie between squares `cur` and `idx`.
pub open spec fn row_gap(cur: int, idx: int) -> int {
    abs(idx / 8 - cur / 8)
}

/// How many columns lie between squares `cur` and `idx`.
pub open spec fn col_gap(cur: int, idx: int) -> int {
    abs(idx % 8 - cur % 8)
}

/// Square `a` lies nearer to `cur` than square `b`: fewer rows away, then
/// fewer columns away.
pub open spec fn strictly_nearer(cur: int, a: int, b: int) -> bool {
    ||| row_gap(cur, a) < row_gap(cur, b)
    ||| row_gap(cur, a) == row_gap(cur, b) && col_gap(cur, a) < col_gap(cur, b)
}

/// Square `a` comes no later than square `b` when an arrow key picks a
/// piece near `cur`: it is strictly nearer, or as near and not higher in number.
pub open spec fn nearer(cur: int, a: int, b: int) -> bool {
    ||| strictly_nearer(cur, a, b)
    ||| row_gap(cur, a) == row_gap(cur, b) && col_gap(cur, a) == col_gap(cur, b) && a <= b
}

/// The piece that an arrow key in direction `(dr, dc)` picks from `cur`
/// among the squares below `n`: the first one met, scanning upwards, that
/// lies ahead and strictly nearer than the one picked so far.
pub open spec fn best_ahead(board: Board, cur: int, dr: int, dc: int, n: int) -> Option<int>
    decreases n,
{
    if n <= 0 {
        None
    } else {
        let prev = best_ahead(board, cur, dr, dc, n - 1);
        if ahead(board, cur, n - 1, dr, dc) && (prev is None || strictly_nearer(cur, n - 1, prev->0)) {
            Some(n - 1)
        } else {
            prev
        }
    }
}

/// The piece that an arrow key in direction `(dr, dc)` takes the cursor to
/// from `cur`, if any piece lies ahead.
pub open spec fn arrow_pick(board: Board, cur: int, dr: int, dc: int) -> Option<int> {
    best_ahead(board, cur, dr, dc, 64)
}

/// The pick among the squares below `n` lies ahead and comes no later than
/// any other piece ahead below `n`; there is none only when no piece lies ahead.
pub proof fn lemma_best_ahead(board: Board, cur: int, dr: int, dc: int, n: int)
    requires
        0 <= n <= 64,
    ensures
        best_ahead(board, cur, dr, dc, n) is None <==> forall|j: int| 0 <= j < n ==> !#[trigger] ahead(board, cur, j, dr, dc),
        best_ahead(board, cur, dr, dc, n) matches Some(i) ==> 0 <= i < n && ahead(board, cur, i, dr, dc)
            && forall|j: int| 0 <= j < n && #[trigger] ahead(board, cur, j, dr, dc) ==> nearer(cur, i, j),
    decreases n,
{
    if n > 0 {
        lemma_best_ahead(board, cur, dr, dc, n - 1);
    }
}

/// The occupied square that an arrow key in direction `(dr, dc)` takes the
/// cursor to from `cur`: among the pieces ahead of it, the one fewest rows
/// away, ties going to the one fewest columns away, then to the lowest
/// square. `None` when no piece lies ahead.
pub fn nearest_in_direction(board: &Board, cur: usize, dr: i32, dc: i32) -> (r: Option<usize>)
    requires
        cur < 64,
        -0x900_0000 <= dr <= 0x900_0000,
        -0x900_0000 <= dc <= 0x900_0000,
    ensures
        r matches Some(i) ==> arrow_pick(*board, cur as int, dr as int, dc as int) == Some(i as int),
        r is None ==> arrow_pick(*board, cur as int, dr as int, dc as int) is None,
        r is None <==> forall|j: int| !#[trigger] ahead(*board, cur as int, j, dr as int, dc as int),
        r matches Some(i) ==> ahead(*board, cur as int, i as int, dr as int, dc as int)
            && forall|j: int| #[trigger] ahead(*board, cur as int, j, dr as int, dc as int) ==> nearer(cur as int, i as int, j),
{
    let cr = (cur / 8) as i32;
    let cc = (cur % 8) as i32;
    let mut best: Option<(i32, i32, usize)> = None;
    let mut idx: usize = 0;
    while idx < 64
        invariant
            cur < 64,
            -0x900_0000 <= dr <= 0x900_0000,
            -0x900_0000 <= dc <= 0x900_0000,
            cr == cur / 8,
            cc == cur % 8,
            0 <= idx <= 64,
            best is None ==> best_ahead(*board, cur as int, dr as int, dc as int, idx as int) is None,
            best matches Some(b) ==> best_ahead(*board, cur as int, dr as int, dc as int, idx as int) == Some(b.2 as int)
                && b.0 == row_gap(cur as int, b.2 as int)
                && b.1 == col_gap(cur as int, b.2 as int),
        decreases 64 - idx,
    {
        if idx != cur && board.pieces[idx].is_some() {
            let r = (idx / 8) as i32;
            let c = (idx % 8) as i32;
            assert(-8 < r - cr < 8 && -8 < c - cc < 8);
            assert(-0x3f00_0000 <= (r - cr) * dr <= 0x3f00_0000 && -0x3f00_0000 <= (c - cc) * dc <= 0x3f00_0000) by (nonlinear_arith)
                requires
                    -8 < r - cr < 8,
                    -8 < c - cc < 8,
                    -0x900_0000 <= dr <= 0x900_0000,
                    -0x900_0000 <= dc <= 0x900_0000,
            ;
            let along_now = (r - cr) * dr + (c - cc) * dc;
            if along_now > 0 {
                let rows = if r >= cr { r - cr } else { cr - r };
                let cols = if c >= cc { c - cc } else { cc - c };
                match best {
                    Some((a, p, _)) if rows > a || (rows == a && cols >= p) => {},
                    _ => {
                        best = Some((rows, cols, idx));
                    },
                }
            }
        }
        idx = idx + 1;
    }
    proof {
        lemma_best_ahead(*board, cur as int, dr as int, dc as int, 64);
    }
    match best {
        Some((_, _, i)) => Some(i),
        None => None,
    }
}

/// Where the cursor stands after an arrow key `d` pressed on `cur`: on the
/// piece that the key picks, or still on `cur` when none lies ahead.
pub open spec fn arrow_step(board: Board, cur: int, d: (int, int)) -> int {
    match arrow_pick(board, cur, d.0, d.1) {
        Some(i) => i,
        None => cur,
    }
}

/// One of the four arrow keys: up, down, left, right.
pub open spec fn is_arrow(d: (int, int)) -> bool {
    d == (-1int, 0int) || d == (1int, 0int) || d == (0int, -1int) || d == (0int, 1int)
}

/// Where the cursor stands after the arrow keys of `path`, pressed in order on `cur`.
pub open spec fn follow(board: Board, cur: int, path: Seq<(int, int)>) -> int
    decreases path.len(),
{
    if path.len() == 0 {
        cur
    } else {
        follow(board, arrow_step(board, cur, path[0]), path.drop_first())
    }
}

/// Arrow keys that lead from `cur` to the piece on `t`: up or down to its
/// row, then left or right along the row.
proof fn arrow_path(board: Board, cur: int, t: int) -> (path: Seq<(int, int)>)
    requires
        0 <= cur < 64,
        0 <= t < 64,
        board@.pieces[t] is Some,
    ensures
        forall|k: int| 0 <= k < path.len() ==> is_arrow(#[trigger] path[k]),
        follow(board, cur, path) == t,
    decreases row_gap(cur, t), col_gap(cur, t),
{
    let d: (int, int) = if t / 8 > cur / 8 {
        (1, 0)
    } else if t / 8 < cur / 8 {
        (-1, 0)
    } else if t % 8 > cur % 8 {
        (0, 1)
    } else if t % 8 < cur % 8 {
        (0, -1)
    } else {
        (0, 0)
    };
    if d == (0int, 0int) {
        assert(cur == t);
        Seq::empty()
    } else {
        assert(ahead(board, cur, t, d.0, d.1));
        lemma_best_ahead(board, cur, d.0, d.1, 64);
        let p = arrow_pick(board, cur, d.0, d.1)->0;
        assert(ahead(board, cur, p, d.0, d.1));
        assert(nearer(cur, p, t));
        assert(row_gap(p, t) < row_gap(cur, t) || (row_gap(p, t) == row_gap(cur, t) && col_gap(p, t) < col_gap(cur, t)));
        let rest = arrow_path(board, p, t);
        let path = seq![d] + rest;
        assert(path.drop_first() =~= rest);
        assert forall|k: int| 0 <= k < path.len() implies is_arrow(#[trigger] path[k]) by {
            if k > 0 {
                assert(path[k] == rest[k - 1]);
            }
        }
        path
    }
}

/// Repeated arrow keys reach every piece on the board, from any square.
pub proof fn law_arrows_reach_every_piece(board: Board, cur: int, t: int)
    requires
        0 <= cur < 64,
        0 <= t < 64,
        board@.pieces[t] is Some,
    ensures
        exists|path: Seq<(int, int)>| (forall|k: int| 0 <= k < path.len() ==> is_arrow(#[trigger] path[k]))
            && #[trigger] follow(board, cur, path) == t,
{
    let path = arrow_path(board, cur, t);
    assert(follow(board, cur, path) == t);
}

/// How a square is shaded on screen.
#[derive(Clone, Copy, PartialEq, Eq, Structural, Debug)]
pub enum Shade {
    Selected,
    CursorLight,
    CursorDark,
    Light,
    Dark,
}

/// What a line of a square shows besides its piece.
#[derive(Clone, Copy, PartialEq, Eq, Structural, Debug)]
pub enum Mark {
    Blank,
    /// The rank number, on the top line of the leftmost file.
    Rank(u8),
    /// The file letter, on the bottom line of the lowest rank.
    File(char),
    /// A hint on the middle line of an empty square that the selected piece attacks.
    Dot,
    /// A capture hint, at the right end of the top line of a piece that the
    /// selected piece may capture, where no picture or glyph covers it.
    Capture,
    /// The rank number and a capture hint, on the top line of the leftmost file.
    RankCapture(u8),
}

/// Squares whose row and column sum to an even number are light.
pub open spec fn light(idx: int) -> bool {
    (idx / 8 + idx % 8) % 2 == 0
}

/// Whether square `idx` is a light one.
pub fn is_light_square(idx: usize) -> (b: bool)
    requires
        idx < 64,
    ensures
        b == light(idx as int),
{
    (idx / 8 + idx % 8) % 2 == 0
}

/// The shading of square `idx`: the selection first, then the cursor, then
/// the square's own color.
pub open spec fn shade_of(idx: int, cursor: int, selected: Option<usize>) -> Shade {
    if selected == Some(idx as usize) {
        Shade::Selected
    } else if idx == cursor {
        if light(idx) { Shade::CursorLight } else { Shade::CursorDark }
    } else if light(idx) {
        Shade::Light
    } else {
        Shade::Dark
    }
}

/// The shading of square `idx` given the cursor and the selection.
pub fn square_shade(idx: usize, cursor: usize, selected: Option<usize>) -> (s: Shade)
    requires
        idx < 64,
    ensures
        s == shade_of(idx as int, cursor as int, selected),
{
    let is_selected = match selected {
        Some(i) => i == idx,
        None => false,
    };
    let light_square = is_light_square(idx);
    if is_selected {
        Shade::Selected
    } else if idx == cursor {
        if light_square { Shade::CursorLight } else { Shade::CursorDark }
    } else if light_square {
        Shade::Light
    } else {
        Shade::Dark
    }
}

/// The file letters `a` to `h`.
pub open spec fn file_letter(col: int) -> char {
    seq!['a', 'b', 'c', 'd', 'e', 'f', 'g', 'h'][col]
}

/// What line `sub` (0 to 4) of square `idx` shows besides its piece, given
/// the hinted squares `targets`: a piece other than a king among them (a
/// capture square) gets a dot on its top line, an empty one a dot on its
/// middle line.
pub open spec fn mark_of(board: Board, idx: int, sub: int, targets: Seq<usize>) -> Mark {
    let row = idx / 8;
    let col = idx % 8;
    let capture = targets.contains(idx as usize) && board@.pieces[idx] is Some && board@.pieces[idx] != Some(Piece::King);
    if sub == 0 {
        if col == 0 {
            if capture { Mark::RankCapture((8 - row) as u8) } else { Mark::Rank((8 - row) as u8) }
        } else if capture {
            Mark::Capture
        } else {
            Mark::Blank
        }
    } else if sub == 4 {
        if row == 7 { Mark::File(file_letter(col)) } else { Mark::Blank }
    } else if board@.pieces[idx] is Some {
        Mark::Blank
    } else if targets.contains(idx as usize) && sub == 2 {
        Mark::Dot
    } else {
        Mark::Blank
    }
}

/// What line `sub` of square `idx` shows besides its piece, given the
/// hinted squares `targets`.
pub fn cell_mark(board: &Board, idx: usize, sub: usize, targets: &[usize]) -> (m: Mark)
    requires
        idx < 64,
        sub < 5,
    ensures
        m == mark_of(*board, idx as int, sub as int, targets@),
{
    let row = idx / 8;
    let col = idx % 8;
    if sub == 0 {
        let capture = match board.pieces[idx] {
            Some(Piece::King) => false,
            Some(_) => slice_has(targets, idx),
            None => false,
        };
        if col == 0 {
            if capture { Mark::RankCapture((8 - row) as u8) } else { Mark::Rank((8 - row) as u8) }
        } else if capture {
            Mark::Capture
        } else {
            Mark::Blank
        }
    } else if sub == 4 {
        if row == 7 {
            let files: [char; 8] = ['a', 'b', 'c', 'd', 'e', 'f', 'g', 'h'];
            assert(files@ =~= seq!['a', 'b', 'c', 'd', 'e', 'f', 'g', 'h']);
            Mark::File(files[col])
        } else {
            Mark::Blank
        }
    } else if board.pieces[idx].is_some() {
        Mark::Blank
    } else if sub == 2 && slice_has(targets, idx) {
        Mark::Dot
    } else {
        Mark::Blank
    }
}

/// Whether `x` is among `s`.
fn slice_has(s: &[usize], x: usize) -> (b: bool)
    ensures
        b == s@.contains(x),
{
    let n = s.len();
    let mut i: usize = 0;
    while i < n
        invariant
            n == s@.len(),
            0 <= i <= n,
            forall|j: int| 0 <= j < i ==> s@[j] != x,
        decreases n - i,
    {
        if s[i] == x {
            assert(s@[i as int] == x);
            return true;
        }
        i = i + 1;
    }
    false
}

/// The terminal cell (column, row) where the piece on `idx` is drawn, for
/// a board whose top left corner is at (`h_pad`, `v_pad`): each square is
/// ten columns by five rows, below two lines of header; a picture starts
/// two columns and one row into the square, a glyph four columns and two rows.
pub open spec fn anchor_of(idx: int, kitty: bool, h_pad: int, v_pad: int) -> (int, int) {
    let row = idx / 8;
    let col = idx % 8;
    if kitty {
        (h_pad + col * 10 + 2, v_pad + 2 + row * 5 + 1)
    } else {
        (h_pad + col * 10 + 4, v_pad + 2 + row * 5 + 2)
    }
}

/// Where on the terminal the piece on `idx` is drawn.
pub fn piece_anchor(idx: usize, kitty: bool, h_pad: u16, v_pad: u16) -> (at: (u16, u16))
    requires
        idx < 64,
        h_pad as int + 80 <= u16::MAX,
        v_pad as int + 44 <= u16::MAX,
    ensures
        (at.0 as int, at.1 as int) == anchor_of(idx as int, kitty, h_pad as int, v_pad as int),
{
    let row = (idx / 8) as u16;
    let col = (idx % 8) as u16;
    if kitty {
        (h_pad + col * 10 + 2, v_pad + 2 + row * 5 + 1)
    } else {
        (h_pad + col * 10 + 4, v_pad + 2 + row * 5 + 2)
    }
}

/// The offset that centres `width` cells in `term` cells (zero when they do not fit).
pub fn centered_offset(term: u16, width: usize) -> (o: u16)
    ensures
        o == if term as int > width { (term as int - width) / 2 } else { 0 },
{
    let t = term as usize;
    if t > width { ((t - width) / 2) as u16 } else { 0 }
}

/// The rows of the pawn drawn on the opening screen, twelve pixels wide
/// (highest bit leftmost).
pub open spec fn pawn_rows() -> Seq<u16> {
    seq![
        0b0000111100000000u16,
        0b0001111110000000u16,
        0b0001111110000000u16,
        0b0000111100000000u16,
        0b0001111110000000u16,
        0b0011111111000000u16,
        0b0011111111000000u16,
        0b0001111110000000u16,
        0b0011111111000000u16,
        0b0111111111100000u16,
        0b1111111111110000u16,
        0b1111111111110000u16,
    ]
}

/// The first `n` pixels of `bits` (highest bit first), each drawn as
/// two cells: full blocks when set, spaces when not.
pub open spec fn mosaic(bits: u16, n: int) -> Seq<char>
    decreases n,
{
    if n <= 0 {
        Seq::empty()
    } else {
        let set = (bits >> ((15 - (n - 1)) as u16)) & 1u16 == 1u16;
        mosaic(bits, n - 1) + if set { seq!['\u{2588}', '\u{2588}'] } else { seq![' ', ' '] }
    }
}

/// Line `row` (0 to 11) of the pawn on the opening screen.
pub fn pawn_mosaic_row(row: usize) -> (line: String)
    requires
        row < 12,
    ensures
        line@ == mosaic(pawn_rows()[row as int], 12),
{
    let rows: [u16; 12] = [
        0b0000111100000000,
        0b0001111110000000,
        0b0001111110000000,
        0b0000111100000000,
        0b0001111110000000,
        0b0011111111000000,
        0b0011111111000000,
        0b0001111110000000,
        0b0011111111000000,
        0b0111111111100000,
        0b1111111111110000,
        0b1111111111110000,
    ];
    assert(rows@ =~= pawn_rows());
    let bits = rows[row];
    let mut line = String::new();
    let mut col: u16 = 0;
    while col < 12
        invariant
            col <= 12,
            line@ == mosaic(bits, col as int),
        decreases 12 - col,
    {
        if (bits >> (15 - col)) & 1 == 1 {
            push_char(&mut line, '\u{2588}');
            push_char(&mut line, '\u{2588}');
        } else {
            push_char(&mut line, ' ');
            push_char(&mut line, ' ');
        }
        col = col + 1;
        assert(line@ =~= mosaic(bits, col as int));
    }
    line
}

/// The first `n` pixels of a five-pixel letter row (highest of the five
/// bits first): a full block when set, a space when not.
pub open spec fn letter_line(bits: u8, n: int) -> Seq<char>
    decreases n,
{
    if n <= 0 {
        Seq::empty()
    } else {
        let set = (bits >> ((4 - (n - 1)) as u8)) & 1u8 == 1u8;
        letter_line(bits, n - 1) + if set { seq!['\u{2588}'] } else { seq![' '] }
    }
}

/// Line `row` of `word` in block letters, the letters one space apart.
pub open spec fn banner(word: Seq<char>, row: int) -> Seq<char>
    decreases word.len(),
{
    if word.len() == 0 {
        Seq::empty()
    } else {
        let gap = if word.len() > 1 { seq![' '] } else { Seq::empty() };
        banner(word.drop_last(), row) + gap + letter_line(letter_rows(word.last())[row], 5)
    }
}

/// Line `row` (0 to 4) of `word` in block letters.
pub fn banner_row(word: &[char], row: usize) -> (line: String)
    requires
        row < 5,
    ensures
        line@ == banner(word@, row as int),
{
    let mut line = String::new();
    let n = word.len();
    let mut i: usize = 0;
    while i < n
        invariant
            row < 5,
            n == word@.len(),
            i <= n,
            line@ == banner(word@.take(i as int), row as int),
        decreases n - i,
    {
        let ghost before = line@;
        if i > 0 {
            push_char(&mut line, ' ');
        }
        let glyph = letter_glyph(word[i]);
        let bits = glyph[row];
        let ghost mid = line@;
        let mut c: u8 = 0;
        while c < 5
            invariant
                c <= 5,
                line@ == mid + letter_line(bits, c as int),
            decreases 5 - c,
        {
            if (bits >> (4 - c)) & 1 == 1 {
                push_char(&mut line, '\u{2588}');
            } else {
                push_char(&mut line, ' ');
            }
            c = c + 1;
            assert(line@ =~= mid + letter_line(bits, c as int));
        }
        assert(word@.take(i + 1).drop_last() =~= word@.take(i as int));
        assert(line@ =~= banner(word@.take(i + 1), row as int));
        i = i + 1;
    }
    assert(word@.take(n as int) =~= word@);
    line
}

/// The fewest terminal columns the game is drawn in.
pub const TERM_COLS: u16 = 80;

/// The fewest terminal rows the game is drawn in.
pub const TERM_ROWS: u16 = 46;

/// Whether a terminal of `cols` by `rows` cells is large enough for the game.
pub fn terminal_fits(cols: u16, rows: u16) -> (b: bool)
    ensures
        b == (cols >= TERM_COLS && rows >= TERM_ROWS),
{
    cols >= TERM_COLS && rows >= TERM_ROWS
}

} // verus!
