use vstd::prelude::*;
use vstd::string::StrSliceExecFns;
use vstd::utf8::encode_utf8;
use crate::board::Board;
use crate::display::{
    Mark, Shade, anchor_of, cell_mark, glyph_of, image_id_of, light, mark_of, piece_anchor, piece_glyph,
    piece_image_id, shade_of, square_shade,
};
use crate::kitty::{clear_command, clear_placements, place_command, place_image};
use crate::text::{decimal, push_char, push_decimal, push_text};

verus! {

/// A colour given by its red, green and blue parts.
#[derive(Clone, Copy, PartialEq, Eq, Structural, Debug)]
pub struct Rgb {
    pub r: u8,
    pub g: u8,
    pub b: u8,
}

/// The width of the board on screen, in columns.
pub const BOARD_WIDTH: usize = 80;

/// One step in drawing a frame: the bytes it writes, or the second bytes
/// where a colour change is written without colour (the `NO_COLOR`
/// convention). Plain text has the same bytes on both sides.
pub open spec fn fixed(bytes: Seq<u8>) -> (Seq<u8>, Seq<u8>) {
    (bytes, bytes)
}

/// `out` is what drawing `strokes` in order writes: each stroke adds one of
/// its two forms at the end.
pub open spec fn draws(out: Seq<u8>, strokes: Seq<(Seq<u8>, Seq<u8>)>) -> bool
    decreases strokes.len(),
{
    if strokes.len() == 0 {
        out.len() == 0
    } else {
        let last = strokes.last();
        let n = out.len() as int;
        ||| last.0.len() <= n && out.subrange(n - last.0.len(), n) == last.0 && draws(
            out.subrange(0, n - last.0.len()),
            strokes.drop_last(),
        )
        ||| last.1.len() <= n && out.subrange(n - last.1.len(), n) == last.1 && draws(
            out.subrange(0, n - last.1.len()),
            strokes.drop_last(),
        )
    }
}

/// Writing one more stroke, in either of its forms, keeps the output a
/// drawing of the strokes so far.
proof fn lemma_draws_push(out: Seq<u8>, strokes: Seq<(Seq<u8>, Seq<u8>)>, stroke: (Seq<u8>, Seq<u8>), added: Seq<u8>)
    requires
        draws(out, strokes),
        added == stroke.0 || added == stroke.1,
    ensures
        draws(out + added, strokes.push(stroke)),
{
    let more = strokes.push(stroke);
    let o = out + added;
    assert(more.drop_last() =~= strokes);
    assert(more.last() == stroke);
    assert(o.subrange(o.len() - added.len(), o.len() as int) =~= added);
    assert(o.subrange(0, o.len() - added.len()) =~= out);
}

/// `n` spaces.
pub open spec fn spaces(n: int) -> Seq<u8> {
    Seq::new(n as nat, |i: int| 32u8)
}

/// The ANSI command that moves the cursor to column `col` and row `row`,
/// both counted from zero: `ESC [ row+1 ; col+1 H`.
pub open spec fn move_to_bytes(col: int, row: int) -> Seq<u8> {
    seq![27u8, 91u8] + decimal((row + 1) as nat) + seq![59u8] + decimal(
        (col + 1) as nat,
    ) + seq![72u8]
}

/// The ANSI command that sets a 24-bit colour: `ESC [ layer ; 2 ; r ; g ; b m`,
/// with layer 38 for the text and 48 for the background.
pub open spec fn color_bytes(layer: nat, c: Rgb) -> Seq<u8> {
    seq![27u8, 91u8] + decimal(layer) + seq![59u8, 50u8, 59u8] + decimal(
        c.r as nat,
    ) + seq![59u8] + decimal(c.g as nat) + seq![59u8] + decimal(c.b as nat)
        + seq![109u8]
}

/// The colour command as written when colour is turned off: `ESC [ m`.
pub open spec fn colorless_bytes() -> Seq<u8> {
    seq![27u8, 91u8, 109u8]
}

/// The ANSI command that resets the colours: `ESC [ 0 m`.
pub open spec fn reset_bytes() -> Seq<u8> {
    seq![27u8, 91u8, 48u8, 109u8]
}

/// The stroke that sets the background colour.
pub open spec fn background(c: Rgb) -> (Seq<u8>, Seq<u8>) {
    (color_bytes(48, c), colorless_bytes())
}

/// The stroke that sets the text colour.
pub open spec fn foreground(c: Rgb) -> (Seq<u8>, Seq<u8>) {
    (color_bytes(38, c), colorless_bytes())
}

/// Calls crossterm's `MoveTo(col, row)` command, whose ANSI form
/// `ESC [ row+1 ; col+1 H` it appends to `buf`.
#[verifier::external_body]
fn push_move_to(buf: &mut Vec<u8>, col: u16, row: u16)
    requires
        col < u16::MAX,
        row < u16::MAX,
    ensures
        final(buf)@ == old(buf)@ + move_to_bytes(col as int, row as int),
{
    let mut s = String::new();
    let _ = crossterm::Command::write_ansi(&crossterm::cursor::MoveTo(col, row), &mut s);
    buf.extend_from_slice(s.as_bytes());
}

/// Calls crossterm's `ResetColor` command, whose ANSI form `ESC [ 0 m` it
/// appends to `buf`.
#[verifier::external_body]
fn push_reset(buf: &mut Vec<u8>)
    ensures
        final(buf)@ == old(buf)@ + reset_bytes(),
{
    let mut s = String::new();
    let _ = crossterm::Command::write_ansi(&crossterm::style::ResetColor, &mut s);
    buf.extend_from_slice(s.as_bytes());
}

/// Calls crossterm's `SetBackgroundColor` command with a 24-bit colour and
/// appends its ANSI form to `buf`: `ESC [ 48 ; 2 ; r ; g ; b m`, or `ESC [ m`
/// when crossterm has colour turned off (a non-empty `NO_COLOR` in the
/// environment). Which of the two comes is not stated.
#[verifier::external_body]
fn push_background(buf: &mut Vec<u8>, c: Rgb)
    ensures
        final(buf)@ == old(buf)@ + color_bytes(48, c) || final(buf)@ == old(buf)@ + colorless_bytes(),
{
    let mut s = String::new();
    let color = crossterm::style::Color::Rgb { r: c.r, g: c.g, b: c.b };
    let _ = crossterm::Command::write_ansi(&crossterm::style::SetBackgroundColor(color), &mut s);
    buf.extend_from_slice(s.as_bytes());
}

/// Calls crossterm's `SetForegroundColor` command with a 24-bit colour and
/// appends its ANSI form to `buf`: `ESC [ 38 ; 2 ; r ; g ; b m`, or `ESC [ m`
/// when crossterm has colour turned off (a non-empty `NO_COLOR` in the
/// environment). Which of the two comes is not stated.
#[verifier::external_body]
fn push_foreground(buf: &mut Vec<u8>, c: Rgb)
    ensures
        final(buf)@ == old(buf)@ + color_bytes(38, c) || final(buf)@ == old(buf)@ + colorless_bytes(),
{
    let mut s = String::new();
    let color = crossterm::style::Color::Rgb { r: c.r, g: c.g, b: c.b };
    let _ = crossterm::Command::write_ansi(&crossterm::style::SetForegroundColor(color), &mut s);
    buf.extend_from_slice(s.as_bytes());
}

/// The UTF-8 bytes of the character `c`.
pub open spec fn char_bytes(c: char) -> Seq<u8> {
    encode_utf8(seq![c])
}

/// `text` centred in `width` columns as Rust's `{:^width$}` pads it: the
/// missing columns, counted in characters, go half (rounded down) before
/// and the rest after; text that does not fit is left as it is.
pub open spec fn centered(text: Seq<char>, width: int) -> Seq<u8> {
    let pad = if text.len() < width { width - text.len() } else { 0 };
    spaces(pad / 2) + encode_utf8(text) + spaces((pad + 1) / 2)
}

/// Appends `n` spaces to `buf`.
fn push_spaces(buf: &mut Vec<u8>, n: usize)
    ensures
        final(buf)@ == old(buf)@ + spaces(n as int),
{
    let mut i: usize = 0;
    while i < n
        invariant
            i <= n,
            buf@ == old(buf)@ + spaces(i as int),
        decreases n - i,
    {
        buf.push(32u8);
        assert(spaces(i + 1) =~= spaces(i as int).push(32u8));
        i = i + 1;
    }
}

/// Appends the UTF-8 bytes of `c` to `buf`.
fn push_char_bytes(buf: &mut Vec<u8>, c: char)
    ensures
        final(buf)@ == old(buf)@ + char_bytes(c),
{
    let mut s = String::new();
    push_char(&mut s, c);
    assert(s@ =~= seq![c]);
    push_text(buf, s.as_str());
}

/// Appends `text` centred in `width` columns to `buf`.
fn push_centered(buf: &mut Vec<u8>, text: &str, width: usize)
    ensures
        final(buf)@ == old(buf)@ + centered(text@, width as int),
{
    let n = text.unicode_len();
    let pad = if n < width { width - n } else { 0 };
    push_spaces(buf, pad / 2);
    push_text(buf, text);
    push_spaces(buf, pad - pad / 2);
    assert((pad + 1) / 2 == pad - pad / 2);
    assert(buf@ =~= old(buf)@ + centered(text@, width as int));
}

/// The colour of a square's shading.
pub open spec fn shade_rgb(s: Shade) -> Rgb {
    match s {
        Shade::Selected => Rgb { r: 246, g: 246, b: 105 },
        Shade::CursorLight => Rgb { r: 225, g: 225, b: 175 },
        Shade::CursorDark => Rgb { r: 142, g: 172, b: 105 },
        Shade::Light => Rgb { r: 238, g: 238, b: 210 },
        Shade::Dark => Rgb { r: 118, g: 150, b: 86 },
    }
}

/// The colour of a square's shading.
pub fn shade_color(s: Shade) -> (c: Rgb)
    ensures
        c == shade_rgb(s),
{
    match s {
        Shade::Selected => Rgb { r: 246, g: 246, b: 105 },
        Shade::CursorLight => Rgb { r: 225, g: 225, b: 175 },
        Shade::CursorDark => Rgb { r: 142, g: 172, b: 105 },
        Shade::Light => Rgb { r: 238, g: 238, b: 210 },
        Shade::Dark => Rgb { r: 118, g: 150, b: 86 },
    }
}

/// The colour of rank numbers and file letters: that of the other kind of square.
pub open spec fn label_rgb(light_square: bool) -> Rgb {
    if light_square { shade_rgb(Shade::Dark) } else { shade_rgb(Shade::Light) }
}

/// The colour of rank numbers and file letters on a light or dark square.
fn label_color(light_square: bool) -> (c: Rgb)
    ensures
        c == label_rgb(light_square),
{
    if light_square { shade_color(Shade::Dark) } else { shade_color(Shade::Light) }
}

/// The colour of the hint dots.
pub open spec fn dot_rgb() -> Rgb {
    Rgb { r: 70, g: 70, b: 70 }
}

/// The colour of the piece glyphs.
pub open spec fn glyph_rgb() -> Rgb {
    Rgb { r: 248, g: 248, b: 248 }
}

/// The hint dot.
pub open spec fn dot_char() -> char {
    '\u{2022}'
}

/// The strokes that draw one line of a square, ten columns wide, after its
/// background: a rank number, a file letter, a hint dot, or blanks.
pub open spec fn mark_strokes(m: Mark, light_square: bool) -> Seq<(Seq<u8>, Seq<u8>)> {
    match m {
        Mark::Blank => seq![fixed(spaces(10))],
        Mark::Rank(n) => seq![
            foreground(label_rgb(light_square)),
            fixed(spaces(1) + decimal(n as nat) + spaces(8)),
        ],
        Mark::File(f) => seq![foreground(label_rgb(light_square)), fixed(spaces(4) + char_bytes(f) + spaces(5))],
        Mark::Dot => seq![foreground(dot_rgb()), fixed(spaces(4) + char_bytes(dot_char()) + spaces(5))],
        Mark::Capture => seq![foreground(dot_rgb()), fixed(spaces(8) + char_bytes(dot_char()) + spaces(1))],
        Mark::RankCapture(n) => seq![
            foreground(label_rgb(light_square)),
            fixed(spaces(1) + decimal(n as nat) + spaces(6)),
            foreground(dot_rgb()),
            fixed(char_bytes(dot_char()) + spaces(1)),
        ],
    }
}

/// The strokes that draw line `sub` of square `idx`: its shading, then its mark.
pub open spec fn cell_strokes(
    board: Board,
    idx: int,
    sub: int,
    cursor: int,
    selected: Option<usize>,
    targets: Seq<usize>,
) -> Seq<(Seq<u8>, Seq<u8>)> {
    seq![background(shade_rgb(shade_of(idx, cursor, selected)))] + mark_strokes(
        mark_of(board, idx, sub, targets),
        light(idx),
    )
}

/// Appends the command that moves the cursor, as one more stroke.
fn draw_move(buf: &mut Vec<u8>, Ghost(s): Ghost<Seq<(Seq<u8>, Seq<u8>)>>, col: u16, row: u16)
    requires
        draws(old(buf)@, s),
        col < u16::MAX,
        row < u16::MAX,
    ensures
        draws(final(buf)@, s.push(fixed(move_to_bytes(col as int, row as int)))),
{
    let ghost before = buf@;
    push_move_to(buf, col, row);
    proof {
        lemma_draws_push(before, s, fixed(move_to_bytes(col as int, row as int)), move_to_bytes(col as int, row as int));
    }
}

/// Appends the command that resets the colours, as one more stroke.
fn draw_reset(buf: &mut Vec<u8>, Ghost(s): Ghost<Seq<(Seq<u8>, Seq<u8>)>>)
    requires
        draws(old(buf)@, s),
    ensures
        draws(final(buf)@, s.push(fixed(reset_bytes()))),
{
    let ghost before = buf@;
    push_reset(buf);
    proof {
        lemma_draws_push(before, s, fixed(reset_bytes()), reset_bytes());
    }
}

/// Appends the command that sets the background colour, as one more stroke.
fn draw_background(buf: &mut Vec<u8>, Ghost(s): Ghost<Seq<(Seq<u8>, Seq<u8>)>>, c: Rgb)
    requires
        draws(old(buf)@, s),
    ensures
        draws(final(buf)@, s.push(background(c))),
{
    let ghost before = buf@;
    push_background(buf, c);
    proof {
        let added = buf@.subrange(before.len() as int, buf@.len() as int);
        assert(buf@ =~= before + added);
        if buf@ == before + color_bytes(48, c) {
            assert(added =~= color_bytes(48, c));
        } else {
            assert(added =~= colorless_bytes());
        }
        lemma_draws_push(before, s, background(c), added);
    }
}

/// Appends the command that sets the text colour, as one more stroke.
fn draw_foreground(buf: &mut Vec<u8>, Ghost(s): Ghost<Seq<(Seq<u8>, Seq<u8>)>>, c: Rgb)
    requires
        draws(old(buf)@, s),
    ensures
        draws(final(buf)@, s.push(foreground(c))),
{
    let ghost before = buf@;
    push_foreground(buf, c);
    proof {
        let added = buf@.subrange(before.len() as int, buf@.len() as int);
        assert(buf@ =~= before + added);
        if buf@ == before + color_bytes(38, c) {
            assert(added =~= color_bytes(38, c));
        } else {
            assert(added =~= colorless_bytes());
        }
        lemma_draws_push(before, s, foreground(c), added);
    }
}

/// Appends `left` spaces, the decimal digits of `n` and `right` spaces, as
/// one more stroke.
fn draw_number(buf: &mut Vec<u8>, Ghost(s): Ghost<Seq<(Seq<u8>, Seq<u8>)>>, left: usize, n: u8, right: usize)
    requires
        draws(old(buf)@, s),
    ensures
        draws(final(buf)@, s.push(fixed(spaces(left as int) + decimal(n as nat) + spaces(right as int)))),
{
    let ghost before = buf@;
    push_spaces(buf, left);
    push_decimal(buf, n as u64);
    push_spaces(buf, right);
    proof {
        let bytes = spaces(left as int) + decimal(n as nat) + spaces(right as int);
        assert(buf@ =~= before + bytes);
        lemma_draws_push(before, s, fixed(bytes), bytes);
    }
}

/// Appends `left` spaces, the character `c` and `right` spaces, as one
/// more stroke.
fn draw_char(buf: &mut Vec<u8>, Ghost(s): Ghost<Seq<(Seq<u8>, Seq<u8>)>>, left: usize, c: char, right: usize)
    requires
        draws(old(buf)@, s),
    ensures
        draws(final(buf)@, s.push(fixed(spaces(left as int) + char_bytes(c) + spaces(right as int)))),
{
    let ghost before = buf@;
    push_spaces(buf, left);
    push_char_bytes(buf, c);
    push_spaces(buf, right);
    proof {
        let bytes = spaces(left as int) + char_bytes(c) + spaces(right as int);
        assert(buf@ =~= before + bytes);
        lemma_draws_push(before, s, fixed(bytes), bytes);
    }
}

/// Appends `n` spaces, as one more stroke.
fn draw_spaces(buf: &mut Vec<u8>, Ghost(s): Ghost<Seq<(Seq<u8>, Seq<u8>)>>, n: usize)
    requires
        draws(old(buf)@, s),
    ensures
        draws(final(buf)@, s.push(fixed(spaces(n as int)))),
{
    let ghost before = buf@;
    push_spaces(buf, n);
    proof {
        lemma_draws_push(before, s, fixed(spaces(n as int)), spaces(n as int));
    }
}

/// Appends `text` centred on the board's width, as one more stroke.
fn draw_centered(buf: &mut Vec<u8>, Ghost(s): Ghost<Seq<(Seq<u8>, Seq<u8>)>>, text: &str)
    requires
        draws(old(buf)@, s),
    ensures
        draws(final(buf)@, s.push(fixed(centered(text@, BOARD_WIDTH as int)))),
{
    let ghost before = buf@;
    push_centered(buf, text, BOARD_WIDTH);
    proof {
        lemma_draws_push(before, s, fixed(centered(text@, BOARD_WIDTH as int)), centered(text@, BOARD_WIDTH as int));
    }
}

/// Appends line `sub` of square `idx`: its shading, then its mark.
fn draw_cell(
    buf: &mut Vec<u8>,
    Ghost(s): Ghost<Seq<(Seq<u8>, Seq<u8>)>>,
    board: &Board,
    idx: usize,
    sub: usize,
    cursor: usize,
    selected: Option<usize>,
    targets: &[usize],
)
    requires
        draws(old(buf)@, s),
        idx < 64,
        sub < 5,
    ensures
        draws(final(buf)@, s + cell_strokes(*board, idx as int, sub as int, cursor as int, selected, targets@)),
{
    let shade = square_shade(idx, cursor, selected);
    draw_background(buf, Ghost(s), shade_color(shade));
    let ghost s1 = s.push(background(shade_rgb(shade)));
    let m = cell_mark(board, idx, sub, targets);
    let light_square = crate::display::is_light_square(idx);
    let ghost marks = mark_strokes(m, light_square);
    match m {
        Mark::Blank => {
            draw_spaces(buf, Ghost(s1), 10);
            assert(s1.push(fixed(spaces(10))) =~= s1 + marks);
        },
        Mark::Rank(n) => {
            let c = label_color(light_square);
            draw_foreground(buf, Ghost(s1), c);
            draw_number(buf, Ghost(s1.push(foreground(c))), 1, n, 8);
            assert(s1.push(foreground(c)).push(fixed(spaces(1) + decimal(n as nat) + spaces(8))) =~= s1 + marks);
        },
        Mark::File(f) => {
            let c = label_color(light_square);
            draw_foreground(buf, Ghost(s1), c);
            draw_char(buf, Ghost(s1.push(foreground(c))), 4, f, 5);
            assert(s1.push(foreground(c)).push(fixed(spaces(4) + char_bytes(f) + spaces(5))) =~= s1 + marks);
        },
        Mark::Dot => {
            let c = Rgb { r: 70, g: 70, b: 70 };
            draw_foreground(buf, Ghost(s1), c);
            draw_char(buf, Ghost(s1.push(foreground(c))), 4, '\u{2022}', 5);
            assert(s1.push(foreground(c)).push(fixed(spaces(4) + char_bytes(dot_char()) + spaces(5))) =~= s1 + marks);
        },
        Mark::Capture => {
            let c = Rgb { r: 70, g: 70, b: 70 };
            draw_foreground(buf, Ghost(s1), c);
            draw_char(buf, Ghost(s1.push(foreground(c))), 8, '\u{2022}', 1);
            assert(s1.push(foreground(c)).push(fixed(spaces(8) + char_bytes(dot_char()) + spaces(1))) =~= s1 + marks);
        },
        Mark::RankCapture(n) => {
            let c = label_color(light_square);
            let d = Rgb { r: 70, g: 70, b: 70 };
            draw_foreground(buf, Ghost(s1), c);
            let ghost s2 = s1.push(foreground(c));
            draw_number(buf, Ghost(s2), 1, n, 6);
            let ghost s3 = s2.push(fixed(spaces(1) + decimal(n as nat) + spaces(6)));
            draw_foreground(buf, Ghost(s3), d);
            let ghost s4 = s3.push(foreground(d));
            draw_char(buf, Ghost(s4), 0, '\u{2022}', 1);
            assert(spaces(0) + char_bytes(dot_char()) + spaces(1) =~= char_bytes(dot_char()) + spaces(1));
            assert(s4.push(fixed(spaces(0) + char_bytes(dot_char()) + spaces(1))) =~= s1 + marks);
        },
    }
    assert(s + cell_strokes(*board, idx as int, sub as int, cursor as int, selected, targets@) =~= s1 + marks);
}

/// The strokes that draw line `sub` of the squares `row * 8` up to
/// `row * 8 + n - 1`, left to right.
pub open spec fn cells_strokes(
    board: Board,
    row: int,
    sub: int,
    cursor: int,
    selected: Option<usize>,
    targets: Seq<usize>,
    n: int,
) -> Seq<(Seq<u8>, Seq<u8>)>
    decreases n,
{
    if n <= 0 {
        Seq::empty()
    } else {
        cells_strokes(board, row, sub, cursor, selected, targets, n - 1) + cell_strokes(
            board,
            row * 8 + n - 1,
            sub,
            cursor,
            selected,
            targets,
        )
    }
}

/// The strokes that draw terminal line `sub` of board row `row`: the move
/// to its start, its eight squares, and a colour reset.
pub open spec fn line_strokes(
    board: Board,
    row: int,
    sub: int,
    cursor: int,
    selected: Option<usize>,
    targets: Seq<usize>,
    h_pad: int,
    v_pad: int,
) -> Seq<(Seq<u8>, Seq<u8>)> {
    seq![fixed(move_to_bytes(h_pad, v_pad + 2 + row * 5 + sub))] + cells_strokes(
        board,
        row,
        sub,
        cursor,
        selected,
        targets,
        8,
    ) + seq![fixed(reset_bytes())]
}

/// The strokes that draw the first `n` of the forty terminal lines of the
/// squares, five to a board row, top to bottom.
pub open spec fn grid_strokes(
    board: Board,
    cursor: int,
    selected: Option<usize>,
    targets: Seq<usize>,
    h_pad: int,
    v_pad: int,
    n: int,
) -> Seq<(Seq<u8>, Seq<u8>)>
    decreases n,
{
    if n <= 0 {
        Seq::empty()
    } else {
        grid_strokes(board, cursor, selected, targets, h_pad, v_pad, n - 1) + line_strokes(
            board,
            (n - 1) / 5,
            (n - 1) % 5,
            cursor,
            selected,
            targets,
            h_pad,
            v_pad,
        )
    }
}

/// Appends terminal line `sub` of board row `row`.
fn draw_line(
    buf: &mut Vec<u8>,
    Ghost(s): Ghost<Seq<(Seq<u8>, Seq<u8>)>>,
    board: &Board,
    row: usize,
    sub: usize,
    cursor: usize,
    selected: Option<usize>,
    targets: &[usize],
    h_pad: u16,
    v_pad: u16,
)
    requires
        draws(old(buf)@, s),
        row < 8,
        sub < 5,
        h_pad as int + 80 <= u16::MAX,
        v_pad as int + 46 <= u16::MAX,
    ensures
        draws(
            final(buf)@,
            s + line_strokes(*board, row as int, sub as int, cursor as int, selected, targets@, h_pad as int, v_pad as int),
        ),
{
    let term_row = v_pad + (2 + row * 5 + sub) as u16;
    draw_move(buf, Ghost(s), h_pad, term_row);
    let ghost s1 = s.push(fixed(move_to_bytes(h_pad as int, term_row as int)));
    let mut col: usize = 0;
    while col < 8
        invariant
            col <= 8,
            row < 8,
            sub < 5,
            draws(buf@, s1 + cells_strokes(*board, row as int, sub as int, cursor as int, selected, targets@, col as int)),
        decreases 8 - col,
    {
        draw_cell(
            buf,
            Ghost(s1 + cells_strokes(*board, row as int, sub as int, cursor as int, selected, targets@, col as int)),
            board,
            row * 8 + col,
            sub,
            cursor,
            selected,
            targets,
        );
        assert(s1 + cells_strokes(*board, row as int, sub as int, cursor as int, selected, targets@, col + 1) =~= (s1
            + cells_strokes(*board, row as int, sub as int, cursor as int, selected, targets@, col as int))
            + cell_strokes(*board, (row * 8 + col) as int, sub as int, cursor as int, selected, targets@));
        col = col + 1;
    }
    let ghost s2 = s1 + cells_strokes(*board, row as int, sub as int, cursor as int, selected, targets@, 8);
    draw_reset(buf, Ghost(s2));
    assert(s + line_strokes(*board, row as int, sub as int, cursor as int, selected, targets@, h_pad as int, v_pad as int)
        =~= s2.push(fixed(reset_bytes())));
}

/// Appends the forty terminal lines of the squares.
fn draw_grid(
    buf: &mut Vec<u8>,
    Ghost(s): Ghost<Seq<(Seq<u8>, Seq<u8>)>>,
    board: &Board,
    cursor: usize,
    selected: Option<usize>,
    targets: &[usize],
    h_pad: u16,
    v_pad: u16,
)
    requires
        draws(old(buf)@, s),
        h_pad as int + 80 <= u16::MAX,
        v_pad as int + 46 <= u16::MAX,
    ensures
        draws(
            final(buf)@,
            s + grid_strokes(*board, cursor as int, selected, targets@, h_pad as int, v_pad as int, 40),
        ),
{
    let mut k: usize = 0;
    while k < 40
        invariant
            k <= 40,
            h_pad as int + 80 <= u16::MAX,
            v_pad as int + 46 <= u16::MAX,
            draws(buf@, s + grid_strokes(*board, cursor as int, selected, targets@, h_pad as int, v_pad as int, k as int)),
        decreases 40 - k,
    {
        draw_line(
            buf,
            Ghost(s + grid_strokes(*board, cursor as int, selected, targets@, h_pad as int, v_pad as int, k as int)),
            board,
            k / 5,
            k % 5,
            cursor,
            selected,
            targets,
            h_pad,
            v_pad,
        );
        assert(s + grid_strokes(*board, cursor as int, selected, targets@, h_pad as int, v_pad as int, k + 1) =~= (s
            + grid_strokes(*board, cursor as int, selected, targets@, h_pad as int, v_pad as int, k as int))
            + line_strokes(*board, (k / 5) as int, (k % 5) as int, cursor as int, selected, targets@, h_pad as int, v_pad as int));
        k = k + 1;
    }
}

/// The key help shown under the board.
pub open spec fn keys_text() -> Seq<char> {
    "setas mover | Enter selec | h dicas | n prox | p ant | r reset | 1-0 nivel | q sair"@
}

/// The bytes of the line above the board: a colour reset, the move to
/// (`h_pad`, `v_pad`) and `info` centred on the board's width.
pub open spec fn info_bytes(info: Seq<char>, h_pad: int, v_pad: int) -> Seq<u8> {
    reset_bytes() + move_to_bytes(h_pad, v_pad) + centered(info, BOARD_WIDTH as int)
}

/// The line above the board, as three strokes.
pub open spec fn info_strokes(info: Seq<char>, h_pad: int, v_pad: int) -> Seq<(Seq<u8>, Seq<u8>)> {
    seq![fixed(reset_bytes()), fixed(move_to_bytes(h_pad, v_pad)), fixed(centered(info, BOARD_WIDTH as int))]
}

/// The two lines under the board: the status line and the key help, each
/// centred on the board's width.
pub open spec fn footer_strokes(status: Seq<char>, h_pad: int, v_pad: int) -> Seq<(Seq<u8>, Seq<u8>)> {
    seq![
        fixed(reset_bytes()),
        fixed(move_to_bytes(h_pad, v_pad + 42)),
        fixed(centered(status, BOARD_WIDTH as int)),
        fixed(move_to_bytes(h_pad, v_pad + 43)),
        fixed(centered(keys_text(), BOARD_WIDTH as int)),
    ]
}

/// The strokes that draw the piece on square `idx`, if any: with Kitty, a
/// move to its anchor and the placement of its picture, six columns by
/// three rows; otherwise a move to its anchor and its glyph, light on the
/// square's shading, followed by a colour reset.
pub open spec fn piece_strokes(
    board: Board,
    idx: int,
    cursor: int,
    selected: Option<usize>,
    kitty: bool,
    h_pad: int,
    v_pad: int,
) -> Seq<(Seq<u8>, Seq<u8>)> {
    match board@.pieces[idx] {
        None => Seq::empty(),
        Some(p) => {
            let at = anchor_of(idx, kitty, h_pad, v_pad);
            if kitty {
                seq![fixed(move_to_bytes(at.0, at.1)), fixed(place_command(image_id_of(p), 6, 3))]
            } else {
                seq![
                    fixed(move_to_bytes(at.0, at.1)),
                    background(shade_rgb(shade_of(idx, cursor, selected))),
                    foreground(glyph_rgb()),
                    fixed(char_bytes(glyph_of(p))),
                    fixed(reset_bytes()),
                ]
            }
        },
    }
}

/// The strokes that draw the pieces on the squares below `n`, in order.
pub open spec fn pieces_strokes(
    board: Board,
    cursor: int,
    selected: Option<usize>,
    kitty: bool,
    h_pad: int,
    v_pad: int,
    n: int,
) -> Seq<(Seq<u8>, Seq<u8>)>
    decreases n,
{
    if n <= 0 {
        Seq::empty()
    } else {
        pieces_strokes(board, cursor, selected, kitty, h_pad, v_pad, n - 1) + piece_strokes(
            board,
            n - 1,
            cursor,
            selected,
            kitty,
            h_pad,
            v_pad,
        )
    }
}

/// The strokes that draw a whole frame of the board: with Kitty, first the
/// deletion of the placed pictures; the line above the board, a blank line,
/// the forty lines of the squares, the two lines under it, and then the
/// pieces, square by square.
pub open spec fn frame_strokes(
    board: Board,
    cursor: int,
    selected: Option<usize>,
    targets: Seq<usize>,
    info: Seq<char>,
    status: Seq<char>,
    kitty: bool,
    h_pad: int,
    v_pad: int,
) -> Seq<(Seq<u8>, Seq<u8>)> {
    (if kitty { seq![fixed(clear_command())] } else { Seq::empty() }) + info_strokes(info, h_pad, v_pad) + seq![
        fixed(move_to_bytes(h_pad, v_pad + 1)),
        fixed(spaces(BOARD_WIDTH as int)),
    ] + grid_strokes(board, cursor, selected, targets, h_pad, v_pad, 40) + footer_strokes(status, h_pad, v_pad)
        + pieces_strokes(board, cursor, selected, kitty, h_pad, v_pad, 64)
}

/// Appends the piece on square `idx`, if any.
fn draw_piece(
    buf: &mut Vec<u8>,
    Ghost(s): Ghost<Seq<(Seq<u8>, Seq<u8>)>>,
    board: &Board,
    idx: usize,
    cursor: usize,
    selected: Option<usize>,
    kitty: bool,
    h_pad: u16,
    v_pad: u16,
)
    requires
        draws(old(buf)@, s),
        idx < 64,
        h_pad as int + 80 <= u16::MAX,
        v_pad as int + 46 <= u16::MAX,
    ensures
        draws(
            final(buf)@,
            s + piece_strokes(*board, idx as int, cursor as int, selected, kitty, h_pad as int, v_pad as int),
        ),
{
    match board.pieces[idx] {
        None => {
            assert(s + piece_strokes(*board, idx as int, cursor as int, selected, kitty, h_pad as int, v_pad as int) =~= s);
        },
        Some(p) => {
            let (col, row) = piece_anchor(idx, kitty, h_pad, v_pad);
            draw_move(buf, Ghost(s), col, row);
            let ghost s1 = s.push(fixed(move_to_bytes(col as int, row as int)));
            if kitty {
                let ghost before = buf@;
                place_image(buf, piece_image_id(p), 6, 3);
                proof {
                    lemma_draws_push(before, s1, fixed(place_command(image_id_of(p), 6, 3)), place_command(image_id_of(p), 6, 3));
                }
                assert(s + piece_strokes(*board, idx as int, cursor as int, selected, kitty, h_pad as int, v_pad as int)
                    =~= s1.push(fixed(place_command(image_id_of(p), 6, 3))));
            } else {
                let shade = shade_color(square_shade(idx, cursor, selected));
                draw_background(buf, Ghost(s1), shade);
                let ghost s2 = s1.push(background(shade));
                draw_foreground(buf, Ghost(s2), Rgb { r: 248, g: 248, b: 248 });
                let ghost s3 = s2.push(foreground(glyph_rgb()));
                draw_char(buf, Ghost(s3), 0, piece_glyph(p), 0);
                assert(spaces(0) + char_bytes(glyph_of(p)) + spaces(0) =~= char_bytes(glyph_of(p)));
                let ghost s4 = s3.push(fixed(char_bytes(glyph_of(p))));
                draw_reset(buf, Ghost(s4));
                assert(s + piece_strokes(*board, idx as int, cursor as int, selected, kitty, h_pad as int, v_pad as int)
                    =~= s4.push(fixed(reset_bytes())));
            }
        },
    }
}

/// The bytes that redraw the line above the board: a colour reset, the
/// move to the board's top left corner and `info_line` centred on the
/// board's width.
pub fn info_frame(info_line: &str, h_pad: u16, v_pad: u16) -> (out: Vec<u8>)
    requires
        h_pad < u16::MAX,
        v_pad < u16::MAX,
    ensures
        out@ == info_bytes(info_line@, h_pad as int, v_pad as int),
{
    let mut out: Vec<u8> = Vec::new();
    push_reset(&mut out);
    push_move_to(&mut out, h_pad, v_pad);
    push_centered(&mut out, info_line, BOARD_WIDTH);
    assert(out@ =~= info_bytes(info_line@, h_pad as int, v_pad as int));
    out
}

/// The bytes of a whole frame of the board, for a board whose top left
/// corner is at (`h_pad`, `v_pad`), with the cursor on `cursor`, the
/// selection `selected` and the hinted squares `targets`, and `info_line`
/// above and `status_line` under the board; pieces are placed as Kitty
/// pictures when `kitty` holds and drawn as glyphs otherwise. Each colour
/// change is written in its 24-bit form, or colourless where crossterm has
/// colour turned off.
pub fn board_frame(
    board: &Board,
    cursor: usize,
    selected: Option<usize>,
    targets: &[usize],
    info_line: &str,
    status_line: &str,
    kitty: bool,
    h_pad: u16,
    v_pad: u16,
) -> (out: Vec<u8>)
    requires
        h_pad as int + 80 <= u16::MAX,
        v_pad as int + 46 <= u16::MAX,
    ensures
        draws(
            out@,
            frame_strokes(*board, cursor as int, selected, targets@, info_line@, status_line@, kitty, h_pad as int, v_pad as int),
        ),
{
    let mut out: Vec<u8> = Vec::new();
    let ghost mut s: Seq<(Seq<u8>, Seq<u8>)> = Seq::empty();
    if kitty {
        clear_placements(&mut out);
        proof {
            lemma_draws_push(Seq::empty(), s, fixed(clear_command()), clear_command());
            assert(Seq::<u8>::empty() + clear_command() =~= clear_command());
            s = s.push(fixed(clear_command()));
        }
    }
    assert(s =~= (if kitty { seq![fixed(clear_command())] } else { Seq::empty() }));
    draw_reset(&mut out, Ghost(s));
    proof { s = s.push(fixed(reset_bytes())); }
    draw_move(&mut out, Ghost(s), h_pad, v_pad);
    proof { s = s.push(fixed(move_to_bytes(h_pad as int, v_pad as int))); }
    draw_centered(&mut out, Ghost(s), info_line);
    proof { s = s.push(fixed(centered(info_line@, BOARD_WIDTH as int))); }
    draw_move(&mut out, Ghost(s), h_pad, v_pad + 1);
    proof { s = s.push(fixed(move_to_bytes(h_pad as int, v_pad + 1))); }
    draw_spaces(&mut out, Ghost(s), BOARD_WIDTH);
    proof { s = s.push(fixed(spaces(BOARD_WIDTH as int))); }
    draw_grid(&mut out, Ghost(s), board, cursor, selected, targets, h_pad, v_pad);
    proof { s = s + grid_strokes(*board, cursor as int, selected, targets@, h_pad as int, v_pad as int, 40); }
    draw_reset(&mut out, Ghost(s));
    proof { s = s.push(fixed(reset_bytes())); }
    draw_move(&mut out, Ghost(s), h_pad, v_pad + 42);
    proof { s = s.push(fixed(move_to_bytes(h_pad as int, v_pad + 42))); }
    draw_centered(&mut out, Ghost(s), status_line);
    proof { s = s.push(fixed(centered(status_line@, BOARD_WIDTH as int))); }
    draw_move(&mut out, Ghost(s), h_pad, v_pad + 43);
    proof { s = s.push(fixed(move_to_bytes(h_pad as int, v_pad + 43))); }
    let keys = "setas mover | Enter selec | h dicas | n prox | p ant | r reset | 1-0 nivel | q sair";
    draw_centered(&mut out, Ghost(s), keys);
    proof { s = s.push(fixed(centered(keys_text(), BOARD_WIDTH as int))); }
    let ghost head = s;
    assert(head =~= (if kitty { seq![fixed(clear_command())] } else { Seq::empty() }) + info_strokes(info_line@, h_pad as int, v_pad as int) + seq![
        fixed(move_to_bytes(h_pad as int, v_pad + 1)),
        fixed(spaces(BOARD_WIDTH as int)),
    ] + grid_strokes(*board, cursor as int, selected, targets@, h_pad as int, v_pad as int, 40) + footer_strokes(status_line@, h_pad as int, v_pad as int));
    let mut idx: usize = 0;
    while idx < 64
        invariant
            idx <= 64,
            h_pad as int + 80 <= u16::MAX,
            v_pad as int + 46 <= u16::MAX,
            draws(out@, head + pieces_strokes(*board, cursor as int, selected, kitty, h_pad as int, v_pad as int, idx as int)),
        decreases 64 - idx,
    {
        draw_piece(
            &mut out,
            Ghost(head + pieces_strokes(*board, cursor as int, selected, kitty, h_pad as int, v_pad as int, idx as int)),
            board,
            idx,
            cursor,
            selected,
            kitty,
            h_pad,
            v_pad,
        );
        assert(head + pieces_strokes(*board, cursor as int, selected, kitty, h_pad as int, v_pad as int, idx + 1) =~= (head
            + pieces_strokes(*board, cursor as int, selected, kitty, h_pad as int, v_pad as int, idx as int))
            + piece_strokes(*board, idx as int, cursor as int, selected, kitty, h_pad as int, v_pad as int));
        idx = idx + 1;
    }
    assert(head + pieces_strokes(*board, cursor as int, selected, kitty, h_pad as int, v_pad as int, 64) =~= frame_strokes(
        *board,
        cursor as int,
        selected,
        targets@,
        info_line@,
        status_line@,
        kitty,
        h_pad as int,
        v_pad as int,
    ));
    out
}

/// `part` stands in `whole` as a run of consecutive strokes.
pub open spec fn has_run(whole: Seq<(Seq<u8>, Seq<u8>)>, part: Seq<(Seq<u8>, Seq<u8>)>) -> bool {
    exists|i: int| 0 <= i && i + part.len() <= whole.len() && #[trigger] whole.subrange(i, i + part.len()) == part
}

/// A run of either half is a run of the whole.
proof fn lemma_run_concat(a: Seq<(Seq<u8>, Seq<u8>)>, b: Seq<(Seq<u8>, Seq<u8>)>, part: Seq<(Seq<u8>, Seq<u8>)>)
    requires
        has_run(a, part) || has_run(b, part),
    ensures
        has_run(a + b, part),
{
    let w = a + b;
    if has_run(a, part) {
        let i = choose|i: int| 0 <= i && i + part.len() <= a.len() && #[trigger] a.subrange(i, i + part.len()) == part;
        assert(w.subrange(i, i + part.len()) =~= a.subrange(i, i + part.len()));
    } else {
        let i = choose|i: int| 0 <= i && i + part.len() <= b.len() && #[trigger] b.subrange(i, i + part.len()) == part;
        assert(w.subrange(a.len() + i, a.len() + i + part.len()) =~= b.subrange(i, i + part.len()));
    }
}

/// A run of a run is a run.
proof fn lemma_run_trans(w: Seq<(Seq<u8>, Seq<u8>)>, p: Seq<(Seq<u8>, Seq<u8>)>, q: Seq<(Seq<u8>, Seq<u8>)>)
    requires
        has_run(w, p),
        has_run(p, q),
    ensures
        has_run(w, q),
{
    let i = choose|i: int| 0 <= i && i + p.len() <= w.len() && #[trigger] w.subrange(i, i + p.len()) == p;
    let j = choose|j: int| 0 <= j && j + q.len() <= p.len() && #[trigger] p.subrange(j, j + q.len()) == q;
    assert(w.subrange(i + j, i + j + q.len()) =~= p.subrange(j, j + q.len()));
}

/// A sequence is a run of itself.
proof fn lemma_run_self(w: Seq<(Seq<u8>, Seq<u8>)>)
    ensures
        has_run(w, w),
{
    let i: int = 0;
    assert(w.subrange(i, i + w.len()) =~= w);
}

/// Each square's strokes stand among those of its line.
proof fn lemma_cells_run(
    board: Board,
    row: int,
    sub: int,
    cursor: int,
    selected: Option<usize>,
    targets: Seq<usize>,
    n: int,
    c: int,
)
    requires
        0 <= c < n,
    ensures
        has_run(
            cells_strokes(board, row, sub, cursor, selected, targets, n),
            cell_strokes(board, row * 8 + c, sub, cursor, selected, targets),
        ),
    decreases n,
{
    let head = cells_strokes(board, row, sub, cursor, selected, targets, n - 1);
    let last = cell_strokes(board, row * 8 + n - 1, sub, cursor, selected, targets);
    if c < n - 1 {
        lemma_cells_run(board, row, sub, cursor, selected, targets, n - 1, c);
    } else {
        lemma_run_self(last);
    }
    lemma_run_concat(head, last, cell_strokes(board, row * 8 + c, sub, cursor, selected, targets));
}

/// Each terminal line of the squares stands among the strokes of the grid.
proof fn lemma_grid_run(
    board: Board,
    cursor: int,
    selected: Option<usize>,
    targets: Seq<usize>,
    h_pad: int,
    v_pad: int,
    n: int,
    k: int,
)
    requires
        0 <= k < n,
    ensures
        has_run(
            grid_strokes(board, cursor, selected, targets, h_pad, v_pad, n),
            line_strokes(board, k / 5, k % 5, cursor, selected, targets, h_pad, v_pad),
        ),
    decreases n,
{
    let head = grid_strokes(board, cursor, selected, targets, h_pad, v_pad, n - 1);
    let last = line_strokes(board, (n - 1) / 5, (n - 1) % 5, cursor, selected, targets, h_pad, v_pad);
    if k < n - 1 {
        lemma_grid_run(board, cursor, selected, targets, h_pad, v_pad, n - 1, k);
    } else {
        lemma_run_self(last);
    }
    lemma_run_concat(head, last, line_strokes(board, k / 5, k % 5, cursor, selected, targets, h_pad, v_pad));
}

/// While solving with hints on, the frame of the board draws every square
/// that the selected piece may capture with the capture dot, and no other
/// square with it: the top line of square `t` (the move to the start of
/// that line, then the squares of its row in order) stands among the
/// frame's strokes, and its mark there is a capture dot exactly when the
/// capture is allowed.
pub proof fn law_frame_shows_capture_dots(
    g: crate::game::Game,
    t: int,
    info: Seq<char>,
    status: Seq<char>,
    kitty: bool,
    h_pad: int,
    v_pad: int,
)
    requires
        g.wf(),
        g.attempt.phase == crate::game::Phase::Solve,
        g.hints == crate::game::Hints::Full,
        g.selected is Some,
        0 <= t < 64,
    ensures
        ({
            let targets = crate::game::hint_squares(g);
            let frame = frame_strokes(g.session.board, g.cursor as int, g.selected, targets, info, status, kitty, h_pad, v_pad);
            let line = line_strokes(g.session.board, t / 8, 0, g.cursor as int, g.selected, targets, h_pad, v_pad);
            let cell = cell_strokes(g.session.board, t, 0, g.cursor as int, g.selected, targets);
            &&& has_run(frame, line)
            &&& has_run(line, cell)
            &&& line[0] == fixed(move_to_bytes(h_pad, v_pad + 2 + (t / 8) * 5))
            &&& (crate::board::valid_move(g.session.board@, g.selected->0 as int, t) <==> (mark_of(g.session.board, t, 0, targets) is Capture
                || mark_of(g.session.board, t, 0, targets) is RankCapture))
        }),
{
    let targets = crate::game::hint_squares(g);
    let board = g.session.board;
    let cursor = g.cursor as int;
    let selected = g.selected;
    crate::game::law_capture_squares_marked(g, t, kitty, h_pad, v_pad);
    let k = (t / 8) * 5;
    assert(k / 5 == t / 8 && k % 5 == 0);
    lemma_grid_run(board, cursor, selected, targets, h_pad, v_pad, 40, k);
    let grid = grid_strokes(board, cursor, selected, targets, h_pad, v_pad, 40);
    let line = line_strokes(board, t / 8, 0, cursor, selected, targets, h_pad, v_pad);
    let head = (if kitty { seq![fixed(clear_command())] } else { Seq::empty() }) + info_strokes(info, h_pad, v_pad) + seq![
        fixed(move_to_bytes(h_pad, v_pad + 1)),
        fixed(spaces(BOARD_WIDTH as int)),
    ];
    let footer = footer_strokes(status, h_pad, v_pad);
    let pieces = pieces_strokes(board, cursor, selected, kitty, h_pad, v_pad, 64);
    lemma_run_concat(head, grid, line);
    lemma_run_concat(head + grid, footer, line);
    lemma_run_concat(head + grid + footer, pieces, line);
    let cells = cells_strokes(board, t / 8, 0, cursor, selected, targets, 8);
    assert((t / 8) * 8 + t % 8 == t);
    lemma_cells_run(board, t / 8, 0, cursor, selected, targets, 8, t % 8);
    let mv = seq![fixed(move_to_bytes(h_pad, v_pad + 2 + (t / 8) * 5))];
    let rs = seq![fixed(reset_bytes())];
    lemma_run_concat(mv, cells, cell_strokes(board, t, 0, cursor, selected, targets));
    lemma_run_concat(mv + cells, rs, cell_strokes(board, t, 0, cursor, selected, targets));
    assert(line == mv + cells + rs);
}

} // verus!
