use solo_chess::board::{Board, Piece};
use solo_chess::display::{
    banner_row, cell_mark, centered_offset, first_piece, is_light_square, letter_glyph,
    nearest_in_direction, pawn_mosaic_row, piece_anchor, piece_glyph, piece_image_id, square_shade,
    terminal_fits,
    Mark, Shade,
};
use solo_chess::terminal::{contains_text, kitty_choice, same_text};

fn board_with(pieces: &[(usize, Piece)]) -> Board {
    let mut b = Board::empty();
    for &(i, p) in pieces {
        b.pieces[i] = Some(p);
    }
    b
}

#[test]
fn glyphs_and_image_ids() {
    assert_eq!(piece_glyph(Piece::King), '\u{265A}');
    assert_eq!(piece_glyph(Piece::Pawn), '\u{265F}');
    assert_eq!(piece_image_id(Piece::King), 1);
    assert_eq!(piece_image_id(Piece::Queen), 2);
    assert_eq!(piece_image_id(Piece::Tower), 3);
    assert_eq!(piece_image_id(Piece::Bishop), 4);
    assert_eq!(piece_image_id(Piece::Knight), 5);
    assert_eq!(piece_image_id(Piece::Pawn), 6);
    assert_eq!(letter_glyph('S'), [0b11111, 0b10000, 0b11111, 0b00001, 0b11111]);
    assert_eq!(letter_glyph('H'), [0b10001, 0b10001, 0b11111, 0b10001, 0b10001]);
    assert_eq!(letter_glyph('x'), [0; 5]);
}

#[test]
fn first_piece_finds_the_lowest_square() {
    assert_eq!(first_piece(&Board::empty()), None);
    assert_eq!(first_piece(&board_with(&[(40, Piece::Pawn), (12, Piece::King)])), Some(12));
}

#[test]
fn arrows_jump_to_the_nearest_piece() {
    // cursor on d4 (35); pieces on d8 (3), b5 (25), f5 (29), h4 (39)
    let b = board_with(&[(35, Piece::King), (3, Piece::Pawn), (25, Piece::Pawn), (29, Piece::Pawn), (39, Piece::Pawn)]);
    // up: b5 and f5 are one row up, two columns off; the lower square wins the tie
    assert_eq!(nearest_in_direction(&b, 35, -1, 0), Some(25));
    // right: h4 in the same row comes before f5 one row up
    assert_eq!(nearest_in_direction(&b, 35, 0, 1), Some(39));
    assert_eq!(nearest_in_direction(&b, 35, 1, 0), None);
    assert_eq!(nearest_in_direction(&b, 35, 0, -1), Some(25));
    // from f5 (29) upwards only d8 is ahead
    assert_eq!(nearest_in_direction(&b, 29, -1, 0), Some(3));
}

#[test]
fn square_shading() {
    assert!(is_light_square(0));
    assert!(!is_light_square(1));
    assert!(!is_light_square(8));
    assert_eq!(square_shade(0, 5, Some(0)), Shade::Selected);
    assert_eq!(square_shade(0, 0, None), Shade::CursorLight);
    assert_eq!(square_shade(1, 1, Some(3)), Shade::CursorDark);
    assert_eq!(square_shade(9, 1, None), Shade::Light);
    assert_eq!(square_shade(10, 1, None), Shade::Dark);
}

#[test]
fn cell_marks() {
    let b = board_with(&[(20, Piece::Pawn), (24, Piece::Knight), (21, Piece::King)]);
    let targets = [19, 20, 21, 24];
    assert_eq!(cell_mark(&b, 0, 0, &targets), Mark::Rank(8));
    assert_eq!(cell_mark(&b, 56, 0, &targets), Mark::Rank(1));
    assert_eq!(cell_mark(&b, 57, 4, &targets), Mark::File('b'));
    assert_eq!(cell_mark(&b, 19, 2, &targets), Mark::Dot);
    assert_eq!(cell_mark(&b, 19, 1, &targets), Mark::Blank);
    assert_eq!(cell_mark(&b, 20, 2, &targets), Mark::Blank);
    // capture squares: the dot goes on the top line, clear of the piece
    assert_eq!(cell_mark(&b, 20, 0, &targets), Mark::Capture);
    assert_eq!(cell_mark(&b, 24, 0, &targets), Mark::RankCapture(5));
    // a king is never a capture square
    assert_eq!(cell_mark(&b, 21, 0, &targets), Mark::Blank);
    assert_eq!(cell_mark(&b, 19, 0, &targets), Mark::Blank);
    assert_eq!(cell_mark(&b, 18, 2, &targets), Mark::Blank);
}

#[test]
fn layout_positions() {
    assert_eq!(piece_anchor(9, true, 3, 1), (15, 9));
    assert_eq!(piece_anchor(9, false, 3, 1), (17, 10));
    assert_eq!(centered_offset(100, 80), 10);
    assert_eq!(centered_offset(70, 80), 0);
}

#[test]
fn splash_rows() {
    assert_eq!(pawn_mosaic_row(0), format!("{}{}{}", "        ", "\u{2588}".repeat(8), "        "));
    assert_eq!(pawn_mosaic_row(11), "\u{2588}".repeat(24));
    let f = '\u{2588}';
    assert_eq!(banner_row(&['S', 'O'], 3), format!("    {f} {f}   {f}"));
    assert_eq!(banner_row(&[], 0), "");
}

#[test]
fn text_matching() {
    assert!(same_text("abc", "abc"));
    assert!(!same_text("abc", "abd"));
    assert!(!same_text("ab", "abc"));
    assert!(contains_text("xterm-kitty", "kitty"));
    assert!(contains_text("kitty", "kitty"));
    assert!(!contains_text("kit", "kitty"));
    assert!(contains_text("abc", ""));
}

#[test]
fn kitty_detection() {
    let args = |v: &[&str]| v.iter().map(|s| s.to_string()).collect::<Vec<String>>();
    assert!(!kitty_choice(&args(&["solo", "--ascii", "--kitty"]), &Some("xterm-kitty".into()), true, false, &None));
    assert!(!kitty_choice(&args(&["solo", "--unicode"]), &None, true, true, &None));
    assert!(kitty_choice(&args(&["solo", "--kitty"]), &None, false, false, &None));
    assert!(kitty_choice(&args(&["solo"]), &Some("xterm-ghostty".into()), false, false, &None));
    assert!(kitty_choice(&args(&["solo"]), &None, false, true, &None));
    assert!(kitty_choice(&args(&["solo"]), &None, false, false, &Some("WezTerm".into())));
    assert!(!kitty_choice(&args(&["solo"]), &Some("xterm-256color".into()), false, false, &Some("iTerm.app".into())));
}

fn reachable_from(b: &Board, start: usize) -> Vec<usize> {
    let mut seen = vec![start];
    let mut todo = vec![start];
    while let Some(x) = todo.pop() {
        for (dr, dc) in [(-1, 0), (1, 0), (0, -1), (0, 1)] {
            if let Some(y) = nearest_in_direction(b, x, dr, dc) {
                if !seen.contains(&y) {
                    seen.push(y);
                    todo.push(y);
                }
            }
        }
    }
    seen.sort();
    seen
}

#[test]
fn arrows_reach_every_piece() {
    let b = board_with(&[(47, Piece::Pawn), (54, Piece::Pawn), (61, Piece::Pawn), (63, Piece::King)]);
    assert_eq!(nearest_in_direction(&b, 61, 0, 1), Some(63));
    for s in [47, 54, 61, 63] {
        assert_eq!(reachable_from(&b, s), vec![47, 54, 61, 63]);
    }
    let c = board_with(&[(0, Piece::Knight), (2, Piece::Pawn), (17, Piece::Pawn), (26, Piece::Pawn)]);
    assert_eq!(nearest_in_direction(&c, 0, 0, 1), Some(2));
    for s in [0, 2, 17, 26] {
        assert_eq!(reachable_from(&c, s), vec![0, 2, 17, 26]);
    }
    let d = board_with(&[(9, Piece::Pawn), (14, Piece::Pawn), (16, Piece::Pawn), (22, Piece::Pawn), (23, Piece::Pawn),
        (31, Piece::Pawn), (32, Piece::Pawn), (41, Piece::Pawn), (58, Piece::King)]);
    assert_eq!(reachable_from(&d, 32), vec![9, 14, 16, 22, 23, 31, 32, 41, 58]);
}

#[test]
fn terminal_size_check() {
    assert!(terminal_fits(80, 46));
    assert!(terminal_fits(200, 60));
    assert!(!terminal_fits(79, 46));
    assert!(!terminal_fits(80, 45));
}

fn find(hay: &[u8], needle: &[u8]) -> Option<usize> {
    hay.windows(needle.len()).position(|w| w == needle)
}

#[test]
fn info_frame_centres_the_line() {
    let out = solo_chess::frame::info_frame("abc", 0, 0);
    let mut expected = b"\x1b[0m\x1b[1;1H".to_vec();
    expected.extend(std::iter::repeat(b' ').take(38));
    expected.extend_from_slice(b"abc");
    expected.extend(std::iter::repeat(b' ').take(39));
    assert_eq!(out, expected);
    let moved = solo_chess::frame::info_frame("", 5, 2);
    assert!(moved.starts_with(b"\x1b[0m\x1b[3;6H"));
    assert_eq!(moved.len(), b"\x1b[0m\x1b[3;6H".len() + 80);
    let long = "x".repeat(90);
    let out = solo_chess::frame::info_frame(&long, 0, 0);
    assert_eq!(out.len(), b"\x1b[0m\x1b[1;1H".len() + 90);
}

fn either(hay: &[u8], colored: &[u8]) -> bool {
    find(hay, colored).is_some() || find(hay, b"\x1b[m").is_some()
}

#[test]
fn board_frame_draws_glyphs_and_capture_dots() {
    let b = board_with(&[(0, Piece::Tower), (2, Piece::Pawn)]);
    let out = solo_chess::frame::board_frame(&b, 0, Some(0), &[1, 2], "info", "status", false, 0, 0);
    // the blank line under the info line
    assert!(find(&out, b"\x1b[2;1H").is_some());
    // the rank number on the top line of a8, then the capture dot on c8
    assert!(find(&out, b" 8        ").is_some());
    assert!(find(&out, "        \u{2022} ".as_bytes()).is_some());
    // the empty hinted square b8 shows a dot on its middle line
    assert!(find(&out, "    \u{2022}     ".as_bytes()).is_some());
    // glyphs at their anchors
    let rook_at = find(&out, b"\x1b[5;5H").unwrap();
    let rook = find(&out, "\u{265C}".as_bytes()).unwrap();
    assert!(rook_at < rook);
    assert!(find(&out, "\u{265F}".as_bytes()).is_some());
    assert!(find(&out, b"\x1b[5;25H").is_some());
    // the selected square is drawn in the selection colour
    assert!(either(&out, b"\x1b[48;2;246;246;105m"));
    // the file letters and the key help
    assert!(find(&out, b"    a     ").is_some());
    assert!(find(&out, b"\x1b[44;1H").is_some());
    assert!(find(&out, b"setas mover | Enter selec").is_some());
    assert!(find(&out, b"_G").is_none());
}

#[test]
fn board_frame_places_kitty_pictures() {
    let b = board_with(&[(63, Piece::Tower)]);
    let out = solo_chess::frame::board_frame(&b, 63, None, &[], "", "", true, 10, 3);
    assert!(out.starts_with(b"\x1b_Ga=d,d=a,q=2\x1b\\"));
    let tail = b"\x1b[42;83H\x1b_Ga=p,i=3,c=6,r=3,q=2\x1b\\";
    assert!(out.ends_with(tail));
    assert!(find(&out, "\u{265C}".as_bytes()).is_none());
}
