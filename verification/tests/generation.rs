use solo_chess::board::{Board, Piece};
use solo_chess::puzzle::{find_reverse_origins, generate, num_pieces_for_level, try_generate};
use solo_chess::rng::{clock_nanos, Rng, SEED_MIX};

fn solvable(b: &Board) -> bool {
    if b.is_won() {
        return true;
    }
    for from in 0..64 {
        for to in 0..64 {
            if b.is_valid_move(from, to) {
                let mut next = *b;
                next.make_move(from, to);
                if solvable(&next) {
                    return true;
                }
            }
        }
    }
    false
}

fn kings(b: &Board) -> usize {
    b.pieces.iter().filter(|p| **p == Some(Piece::King)).count()
}

#[test]
fn rng_steps_are_the_lcg() {
    let mut rng = Rng::from_clock(0);
    assert_eq!(rng.next(), 3236661110929538048);
    assert_eq!(rng.next(), 12285948757477592399);
}

#[test]
fn rng_range_and_pick() {
    let mut rng = Rng::from_clock(42 ^ SEED_MIX);
    assert_eq!(rng.range(10), 3);
    let mut zero = Rng::from_clock(5 ^ SEED_MIX);
    assert_eq!(zero.range(0), 0);
    // range(0) does not step: the next pick draws from state 5
    assert_eq!(zero.pick(&[10, 20, 30]), 10);
}

#[test]
fn shuffle_is_the_seeded_permutation() {
    let mut rng = Rng::from_clock(7 ^ SEED_MIX);
    let mut items = [0, 1, 2, 3, 4, 5];
    rng.shuffle(&mut items);
    assert_eq!(items, [1, 3, 5, 4, 0, 2]);
    let mut sorted = items;
    sorted.sort();
    assert_eq!(sorted, [0, 1, 2, 3, 4, 5]);
    let mut single = [9];
    rng.shuffle(&mut single);
    assert_eq!(single, [9]);
    let mut none: [u8; 0] = [];
    rng.shuffle(&mut none);
}

#[test]
fn pieces_per_level() {
    assert_eq!(num_pieces_for_level(0), 3);
    assert_eq!(num_pieces_for_level(1), 3);
    assert_eq!(num_pieces_for_level(2), 5);
    assert_eq!(num_pieces_for_level(5), 8);
    assert_eq!(num_pieces_for_level(9), 12);
    assert_eq!(num_pieces_for_level(10), 13);
    assert_eq!(num_pieces_for_level(11), 13);
    assert_eq!(num_pieces_for_level(255), 13);
}

#[test]
fn reverse_origins_of_a_rook() {
    let mut b = Board::empty();
    b.pieces[0] = Some(Piece::Tower);
    b.pieces[2] = Some(Piece::Pawn);
    // A tower reaching square 0: along row 0 only from square 1 (2 is
    // occupied), along column 0 from 8, 16, ..., 56.
    let origins = find_reverse_origins(&b, Piece::Tower, 0);
    assert_eq!(origins, vec![1, 8, 16, 24, 32, 40, 48, 56]);
    let knight = find_reverse_origins(&b, Piece::Knight, 0);
    assert_eq!(knight, vec![10, 17]);
}

#[test]
fn generated_puzzles_are_solvable() {
    for seed in 0..6u64 {
        for level in 1..=4u8 {
            let mut rng = Rng::from_clock(seed * 7919);
            let b = generate(level, &mut rng);
            assert_eq!(kings(&b), 1);
            assert!(b.moves_used.iter().all(|u| *u == 0));
            let n = b.piece_count();
            let fallback = n == 2 && b.pieces[28] == Some(Piece::King) && b.pieces[36] == Some(Piece::Pawn);
            assert!(n == num_pieces_for_level(level) || fallback);
            assert!(solvable(&b));
        }
    }
}

#[test]
fn try_generate_gives_puzzles_of_the_level() {
    let mut rng = Rng::from_clock(123);
    let mut found = 0;
    for _ in 0..20 {
        if let Some(b) = try_generate(2, &mut rng) {
            assert_eq!(b.piece_count(), 5);
            assert_eq!(kings(&b), 1);
            assert!(solvable(&b));
            found += 1;
        }
    }
    assert!(found > 0);
}

#[test]
fn fallback_board_is_solvable() {
    let mut b = Board::empty();
    b.pieces[28] = Some(Piece::King);
    b.pieces[36] = Some(Piece::Pawn);
    assert!(b.is_valid_move(28, 36));
    assert!(solvable(&b));
}

#[test]
fn clock_readings_become_seeds() {
    assert_eq!(clock_nanos(0), 0);
    assert_eq!(clock_nanos(5), 5);
    assert_eq!(clock_nanos((1u128 << 64) + 7), 7);
    assert_eq!(clock_nanos(u64::MAX as u128), u64::MAX);
}

#[test]
fn reverse_origins_of_a_square_off_the_board() {
    let mut b = Board::empty();
    b.pieces[0] = Some(Piece::Queen);
    assert!(find_reverse_origins(&b, Piece::Queen, 64).is_empty());
    assert!(find_reverse_origins(&b, Piece::Knight, 1000).is_empty());
}

#[test]
fn new_session_deals_ten_levels_from_the_clock() {
    let s = solo_chess::session::PuzzleSession::new().expect("clock after 1970");
    assert_eq!(s.levels.len(), 10);
    assert!(s.levels.iter().all(|l| l.len() == 3));
    assert_eq!((s.current_level, s.current_puzzle), (0, 0));
    assert_eq!(s.board.pieces, s.levels[0][0].pieces);
    assert!(Rng::from_time().is_some());
}
