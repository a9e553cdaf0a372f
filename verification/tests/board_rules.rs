use solo_chess::board::{Board, Piece};

fn board_with(pieces: &[(usize, Piece)]) -> Board {
    let mut b = Board::empty();
    for &(i, p) in pieces {
        b.pieces[i] = Some(p);
    }
    b
}

#[test]
fn empty_board_has_nothing() {
    let b = Board::empty();
    assert_eq!(b.piece_count(), 0);
    assert!(!b.has_king());
    assert!(!b.is_won());
    assert!(!b.has_any_valid_move());
    assert!(b.moves(0).is_empty());
}

#[test]
fn knight_moves_from_corner_and_centre() {
    let b = board_with(&[(0, Piece::Knight), (27, Piece::Knight)]);
    assert_eq!(b.moves(0), vec![17, 10]);
    // d5 = row 3, col 3: offsets in order (2,1),(2,-1),(-2,1),(-2,-1),(1,2),(1,-2),(-1,2),(-1,-2)
    assert_eq!(b.moves(27), vec![44, 42, 12, 10, 37, 33, 21, 17]);
}

#[test]
fn king_moves_in_order() {
    let b = board_with(&[(28, Piece::King)]);
    assert_eq!(b.moves(28), vec![19, 20, 21, 27, 29, 35, 36, 37]);
    let corner = board_with(&[(63, Piece::King)]);
    assert_eq!(corner.moves(63), vec![54, 55, 62]);
}

#[test]
fn pawn_captures_upwards_diagonally() {
    let b = board_with(&[(36, Piece::Pawn), (8, Piece::Pawn), (3, Piece::Pawn)]);
    assert_eq!(b.moves(36), vec![27, 29]);
    assert_eq!(b.moves(8), vec![1]);
    assert!(b.moves(3).is_empty());
}

#[test]
fn tower_rays_stop_at_first_piece() {
    let b = board_with(&[(0, Piece::Tower), (3, Piece::Pawn), (16, Piece::Pawn)]);
    // right: 1, 2, 3 (blocked); left: none; down: 8, 16 (blocked); up: none
    assert_eq!(b.moves(0), vec![1, 2, 3, 8, 16]);
}

#[test]
fn bishop_and_queen_rays() {
    let b = board_with(&[(0, Piece::Bishop), (18, Piece::Pawn)]);
    assert_eq!(b.moves(0), vec![9, 18]);
    let q = board_with(&[(63, Piece::Queen), (61, Piece::Knight), (45, Piece::Knight)]);
    // right none, left 62, 61; down none; up 55, 47, ..., 7; diagonals: (-1,-1) 54, 45
    assert_eq!(q.moves(63), vec![62, 61, 55, 47, 39, 31, 23, 15, 7, 54, 45]);
}

#[test]
fn valid_moves_follow_the_rules() {
    let mut b = board_with(&[(28, Piece::King), (36, Piece::Pawn), (27, Piece::Queen)]);
    assert!(b.is_valid_move(28, 36));
    assert!(b.is_valid_move(27, 36));
    // the king may never be captured
    assert!(!b.is_valid_move(27, 28));
    assert!(!b.is_valid_move(36, 28));
    // captures only
    assert!(!b.is_valid_move(28, 29));
    // an empty square moves nothing
    assert!(!b.is_valid_move(0, 36));
    // a piece that has captured twice may not move
    b.moves_used[27] = 2;
    assert!(!b.is_valid_move(27, 36));
}

#[test]
fn make_move_counts_the_capture() {
    let mut b = board_with(&[(28, Piece::King), (36, Piece::Pawn), (27, Piece::Queen)]);
    b.moves_used[27] = 1;
    assert_eq!(b.piece_count(), 3);
    b.make_move(27, 36);
    assert_eq!(b.pieces[36], Some(Piece::Queen));
    assert_eq!(b.pieces[27], None);
    assert_eq!(b.moves_used[36], 2);
    assert_eq!(b.moves_used[27], 0);
    assert_eq!(b.piece_count(), 2);
    assert!(b.has_king());
    assert!(!b.is_won());
    assert!(b.is_valid_move(28, 36));
    assert!(!b.is_valid_move(36, 28));
    b.make_move(28, 36);
    assert!(b.is_won());
    assert_eq!(b.pieces[36], Some(Piece::King));
}

#[test]
fn dead_end_has_no_valid_move() {
    let b = board_with(&[(0, Piece::Pawn), (63, Piece::Pawn)]);
    assert!(!b.has_any_valid_move());
    assert!(!b.is_won());
    let c = board_with(&[(9, Piece::Pawn), (0, Piece::Knight)]);
    assert!(c.has_any_valid_move());
}

#[test]
fn is_won_with_one_piece_without_king() {
    let b = board_with(&[(5, Piece::Knight)]);
    assert!(b.is_won());
    assert!(!b.has_king());
}

#[test]
fn capture_removes_exactly_one_piece_and_never_a_king() {
    let mut b = board_with(&[(28, Piece::King), (36, Piece::Pawn), (27, Piece::Queen), (24, Piece::Tower)]);
    let before = b.piece_count();
    assert!(b.is_valid_move(24, 27));
    b.make_move(24, 27);
    assert_eq!(b.piece_count(), before - 1);
    assert!(b.has_king());
    assert_eq!(b.moves_used[27], 1);
}
