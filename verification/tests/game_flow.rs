use solo_chess::board::{Board, Piece};
use solo_chess::display::{cell_mark, Mark};
use solo_chess::game::{Attempt, Game, Hints, Key, Outcome, Phase};
use solo_chess::rng::Rng;
use solo_chess::session::PuzzleSession;

fn board_with(pieces: &[(usize, Piece)]) -> Board {
    let mut b = Board::empty();
    for &(i, p) in pieces {
        b.pieces[i] = Some(p);
    }
    b
}

fn session_of(levels: Vec<Vec<Board>>) -> PuzzleSession {
    let board = levels[0][0];
    PuzzleSession { levels, current_level: 0, current_puzzle: 0, board }
}

fn tagged(n: usize) -> Board {
    board_with(&[(n, Piece::King)])
}

#[test]
fn session_navigation_wraps_and_undoes() {
    let levels = vec![vec![tagged(0), tagged(1)], vec![tagged(2)], vec![tagged(3), tagged(4), tagged(5)]];
    let mut s = session_of(levels);
    s.next();
    assert_eq!((s.current_level, s.current_puzzle), (0, 1));
    assert_eq!(s.board.pieces[1], Some(Piece::King));
    s.next();
    assert_eq!((s.current_level, s.current_puzzle), (1, 0));
    s.next();
    s.next();
    s.next();
    assert_eq!((s.current_level, s.current_puzzle), (2, 2));
    s.next();
    assert_eq!((s.current_level, s.current_puzzle), (0, 0));
    s.prev();
    assert_eq!((s.current_level, s.current_puzzle), (2, 2));
    assert_eq!(s.board.pieces[5], Some(Piece::King));
    s.next();
    assert_eq!((s.current_level, s.current_puzzle), (0, 0));
    s.goto_level(2);
    assert_eq!((s.current_level, s.current_puzzle), (2, 0));
    s.goto_level(7);
    assert_eq!((s.current_level, s.current_puzzle), (2, 0));
}

#[test]
fn session_reset_restores_the_puzzle() {
    let start = board_with(&[(28, Piece::King), (36, Piece::Pawn)]);
    let mut s = session_of(vec![vec![start]]);
    s.board.make_move(28, 36);
    assert_eq!(s.board.piece_count(), 1);
    s.reset();
    assert_eq!(s.board.piece_count(), 2);
    assert_eq!(s.board.pieces[28], Some(Piece::King));
}

#[test]
fn generated_session_has_ten_levels_of_three() {
    let mut rng = Rng::from_clock(99);
    let s = PuzzleSession::with_rng(&mut rng);
    assert_eq!(s.levels.len(), 10);
    assert!(s.levels.iter().all(|l| l.len() == 3));
    assert_eq!(s.board.pieces, s.levels[0][0].pieces);
}

#[test]
fn attempt_clock() {
    let mut a = Attempt::new(1_000);
    assert_eq!(a.phase, Phase::Inspect);
    assert_eq!(a.shown_secs(4_999), 3);
    assert_eq!(a.shown_secs(500), 0);
    a.phase = Phase::Stuck;
    assert_eq!(a.shown_secs(9_000), 0);
}

fn game_on(board: Board) -> Game {
    Game::new(session_of(vec![vec![board]]), 0)
}

#[test]
fn solving_a_puzzle_raises_the_streak() {
    let mut g = game_on(board_with(&[(28, Piece::King), (36, Piece::Pawn)]));
    assert_eq!(g.cursor, 28);
    assert_eq!(g.handle_key(Key::Enter, 2_500), Outcome::Changed);
    assert_eq!(g.attempt.phase, Phase::Solve);
    assert_eq!(g.attempt.inspect_secs, 2);
    // select the king
    g.handle_key(Key::Enter, 3_000);
    assert_eq!(g.selected, Some(28));
    assert_eq!(g.hint_targets(), vec![19, 20, 21, 27, 29, 35, 36, 37]);
    // the pawn that the king may take shows the capture dot on its top line
    assert_eq!(cell_mark(&g.session.board, 36, 0, &g.hint_targets()), Mark::Capture);
    assert_eq!(cell_mark(&g.session.board, 27, 2, &g.hint_targets()), Mark::Dot);
    // move the cursor down to the pawn and capture it
    assert_eq!(g.handle_key(Key::Down, 3_100), Outcome::Changed);
    assert_eq!(g.cursor, 36);
    assert_eq!(g.handle_key(Key::Enter, 9_600), Outcome::Captured);
    assert_eq!(g.attempt.phase, Phase::Done);
    assert_eq!(g.attempt.solve_secs, 7);
    assert_eq!(g.attempt.moves, 1);
    assert_eq!(g.streak, 1);
    assert_eq!(g.selected, None);
    // Enter does nothing once done
    assert_eq!(g.handle_key(Key::Enter, 10_000), Outcome::Changed);
    assert_eq!(g.attempt.phase, Phase::Done);
}

#[test]
fn dead_end_is_stuck_and_restart_clears_the_streak() {
    // The knight on a1 may take the pawn on b3; then the pawn on h8 is out of reach.
    let mut g = game_on(board_with(&[(56, Piece::Knight), (41, Piece::Pawn), (7, Piece::Pawn)]));
    g.streak = 4;
    g.handle_key(Key::Enter, 0);
    g.cursor = 56;
    g.handle_key(Key::Enter, 0);
    assert_eq!(g.selected, Some(56));
    g.cursor = 41;
    assert_eq!(g.handle_key(Key::Enter, 0), Outcome::Captured);
    assert_eq!(g.attempt.phase, Phase::Stuck);
    assert!(!g.attempt.clean);
    assert_eq!(g.streak, 4);
    assert_eq!(g.handle_key(Key::Char('r'), 5_000), Outcome::Changed);
    assert_eq!(g.streak, 0);
    assert_eq!(g.attempt.phase, Phase::Inspect);
    assert_eq!(g.session.board.piece_count(), 3);
    assert_eq!(g.cursor, 7);
}

#[test]
fn selection_rules() {
    let mut g = game_on(board_with(&[(28, Piece::King), (36, Piece::Pawn), (0, Piece::Knight)]));
    g.handle_key(Key::Enter, 0);
    g.cursor = 0;
    g.handle_key(Key::Enter, 0);
    assert_eq!(g.selected, Some(0));
    // Enter on the selected piece drops the selection
    g.handle_key(Key::Enter, 0);
    assert_eq!(g.selected, None);
    g.handle_key(Key::Enter, 0);
    // an empty square that cannot be taken drops the selection
    g.cursor = 1;
    g.handle_key(Key::Enter, 0);
    assert_eq!(g.selected, None);
    // another piece that cannot be taken becomes the selection
    g.cursor = 0;
    g.handle_key(Key::Enter, 0);
    g.cursor = 36;
    g.handle_key(Key::Enter, 0);
    assert_eq!(g.selected, Some(36));
    assert_eq!(g.handle_key(Key::Esc, 0), Outcome::Changed);
    assert_eq!(g.selected, None);
}

#[test]
fn other_keys() {
    let mut g = game_on(board_with(&[(28, Piece::King), (36, Piece::Pawn)]));
    assert_eq!(g.handle_key(Key::Char('h'), 0), Outcome::Changed);
    assert_eq!(g.hints, Hints::Off);
    g.handle_key(Key::Enter, 0);
    g.handle_key(Key::Enter, 0);
    assert!(g.hint_targets().is_empty());
    assert_eq!(g.handle_key(Key::Char('x'), 0), Outcome::Ignored);
    assert_eq!(g.handle_key(Key::Other, 0), Outcome::Ignored);
    g.streak = 3;
    assert_eq!(g.handle_key(Key::Char('1'), 0), Outcome::Changed);
    assert_eq!(g.streak, 0);
    assert_eq!(g.session.current_level, 0);
    assert_eq!(g.handle_key(Key::Char('q'), 0), Outcome::Changed);
    assert!(!g.running);
}

#[test]
fn next_and_digits_in_a_full_session() {
    let mut rng = Rng::from_clock(5);
    let mut g = Game::new(PuzzleSession::with_rng(&mut rng), 0);
    g.streak = 2;
    g.handle_key(Key::Char('n'), 0);
    assert_eq!((g.session.current_level, g.session.current_puzzle), (0, 1));
    assert_eq!(g.streak, 2);
    g.handle_key(Key::Char('p'), 0);
    assert_eq!((g.session.current_level, g.session.current_puzzle), (0, 0));
    g.handle_key(Key::Char('0'), 0);
    assert_eq!((g.session.current_level, g.session.current_puzzle), (9, 0));
    assert_eq!(g.streak, 0);
    g.handle_key(Key::Char('3'), 0);
    assert_eq!(g.session.current_level, 2);
}

#[test]
fn lines_above_and_under_the_board() {
    let mut g = game_on(board_with(&[(28, Piece::King), (36, Piece::Pawn)]));
    assert_eq!(g.info_line(65_000), "Nivel 1  Puzzle 1/1   inspecao 01:05");
    assert_eq!(g.status_line(), "Inspecione e planeje a sequencia \u{2014} Enter para comecar");
    g.handle_key(Key::Enter, 2_500);
    assert_eq!(g.info_line(4_000), "Nivel 1  Puzzle 1/1   resolvendo 00:01");
    assert_eq!(g.status_line(), "");
    g.handle_key(Key::Enter, 3_000);
    g.handle_key(Key::Down, 3_100);
    g.handle_key(Key::Enter, 9_600);
    assert_eq!(g.info_line(99_000), "Nivel 1  Puzzle 1/1   resolvido 00:07");
    assert_eq!(
        g.status_line(),
        "Resolvido! inspecao 2s \u{00b7} execucao 7s \u{00b7} 1 lances \u{00b7} streak 1 \u{2014} n proximo"
    );
    g.attempt.phase = Phase::Stuck;
    assert_eq!(g.info_line(99_000), "Nivel 1  Puzzle 1/1   sem saida");
    assert_eq!(g.status_line(), "Sem saida \u{2014} r para tentar de novo");
}

#[test]
fn info_line_counts_levels_and_puzzles_from_one() {
    let levels = vec![vec![tagged(0), tagged(1)], vec![tagged(2), tagged(3), tagged(4)]];
    let mut s = session_of(levels);
    s.next();
    s.next();
    s.next();
    let g = Game::new(s, 0);
    assert_eq!(g.info_line(0), "Nivel 2  Puzzle 2/3   inspecao 00:00");
}

#[test]
fn frame_shows_capture_dots_while_solving() {
    let mut g = game_on(board_with(&[(28, Piece::King), (36, Piece::Pawn), (0, Piece::Pawn)]));
    g.handle_key(Key::Enter, 0);
    g.cursor = 28;
    g.handle_key(Key::Enter, 0);
    assert_eq!(g.selected, Some(28));
    let targets = g.hint_targets();
    let out = solo_chess::frame::board_frame(&g.session.board, g.cursor, g.selected, &targets, "", "", false, 0, 0);
    let dot = "        \u{2022} ".as_bytes();
    let count = out.windows(dot.len()).filter(|w| *w == dot).count();
    assert_eq!(count, 1);
    // the dot sits on the top line of e4 (row 4 of the board), after the move to that line
    let line_start = out.windows(7).position(|w| w == b"\x1b[23;1H").unwrap();
    let dot_at = out.windows(dot.len()).position(|w| w == dot).unwrap();
    let next_line = out.windows(7).position(|w| w == b"\x1b[24;1H").unwrap();
    assert!(line_start < dot_at && dot_at < next_line);
}
