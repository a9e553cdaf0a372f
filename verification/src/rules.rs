use vstd::prelude::*;
use crate::board::{lemma_moves_exclude_self, Piece, Position, valid_move, after_move, is_won, count_pieces, count_kings};

verus! {

/// `path` is a sequence of allowed captures, each `(from, to)`, that
/// leads from `pos` to a solved position.
pub open spec fn solves(pos: Position, path: Seq<(int, int)>) -> bool
    decreases path.len(),
{
    if path.len() == 0 {
        is_won(pos)
    } else {
        &&& valid_move(pos, path[0].0, path[0].1)
        &&& solves(after_move(pos, path[0].0, path[0].1), path.drop_first())
    }
}

/// Some sequence of allowed captures solves the position.
pub open spec fn solvable(pos: Position) -> bool {
    exists|path: Seq<(int, int)>| #[trigger] solves(pos, path)
}

/// The position reached from `pos` by playing the captures of `path`.
pub open spec fn play(pos: Position, path: Seq<(int, int)>) -> Position
    decreases path.len(),
{
    if path.len() == 0 {
        pos
    } else {
        play(after_move(pos, path[0].0, path[0].1), path.drop_first())
    }
}

/// A position whose two sequences cover the 64 squares.
pub open spec fn well_sized(pos: Position) -> bool {
    pos.pieces.len() == 64 && pos.used.len() == 64
}

pub proof fn lemma_count_pieces_update(p: Seq<Option<Piece>>, i: int, x: Option<Piece>)
    requires
        0 <= i < p.len(),
    ensures
        count_pieces(p.update(i, x)) + (if p[i] is Some { 1int } else { 0int }) == count_pieces(p) + (if x is Some { 1int } else { 0int }),
    decreases p.len(),
{
    let q = p.update(i, x);
    if i == p.len() - 1 {
        assert(q.drop_last() =~= p.drop_last());
    } else {
        lemma_count_pieces_update(p.drop_last(), i, x);
        assert(q.drop_last() =~= p.drop_last().update(i, x));
    }
}

pub proof fn lemma_count_kings_update(p: Seq<Option<Piece>>, i: int, x: Option<Piece>)
    requires
        0 <= i < p.len(),
    ensures
        count_kings(p.update(i, x)) + (if p[i] == Some(Piece::King) { 1int } else { 0int }) == count_kings(p) + (if x == Some(Piece::King) { 1int } else { 0int }),
    decreases p.len(),
{
    let q = p.update(i, x);
    if i == p.len() - 1 {
        assert(q.drop_last() =~= p.drop_last());
    } else {
        lemma_count_kings_update(p.drop_last(), i, x);
        assert(q.drop_last() =~= p.drop_last().update(i, x));
    }
}

/// A piece other than a king counts among the pieces and not among the kings.
pub proof fn lemma_other_piece_counted(p: Seq<Option<Piece>>, i: int)
    requires
        0 <= i < p.len(),
        p[i] is Some,
        p[i] != Some(Piece::King),
    ensures
        count_pieces(p) >= count_kings(p) + 1,
    decreases p.len(),
{
    lemma_kings_among_pieces(p.drop_last());
    if i < p.len() - 1 {
        lemma_other_piece_counted(p.drop_last(), i);
    }
}

/// Every king counts among the pieces.
pub proof fn lemma_kings_among_pieces(p: Seq<Option<Piece>>)
    ensures
        count_kings(p) <= count_pieces(p),
    decreases p.len(),
{
    if p.len() > 0 {
        lemma_kings_among_pieces(p.drop_last());
    }
}

/// Every move is a capture: an allowed move leaves one piece fewer on the board.
pub proof fn law_capture_removes_one_piece(pos: Position, from: int, to: int)
    requires
        well_sized(pos),
        valid_move(pos, from, to),
    ensures
        well_sized(after_move(pos, from, to)),
        count_pieces(after_move(pos, from, to).pieces) + 1 == count_pieces(pos.pieces),
{
    let p = pos.pieces;
    let q = p.update(to, p[from]);
    lemma_count_pieces_update(p, to, p[from]);
    lemma_count_pieces_update(q, from, None);
}

/// A king is never captured: an allowed move keeps the number of kings.
pub proof fn law_king_never_captured(pos: Position, from: int, to: int)
    requires
        well_sized(pos),
        valid_move(pos, from, to),
    ensures
        count_kings(after_move(pos, from, to).pieces) == count_kings(pos.pieces),
{
    let p = pos.pieces;
    let q = p.update(to, p[from]);
    lemma_count_kings_update(p, to, p[from]);
    lemma_count_kings_update(q, from, None);
}

/// Each piece captures at most twice: a piece that has captured twice
/// has no allowed move, a capture raises the mover's count by exactly one,
/// and no count ever exceeds two.
pub proof fn law_at_most_two_captures(pos: Position, from: int, to: int)
    requires
        well_sized(pos),
        forall|i: int| 0 <= i < 64 ==> #[trigger] pos.used[i] <= 2,
    ensures
        pos.used[from] >= 2 ==> !valid_move(pos, from, to),
        valid_move(pos, from, to) ==> after_move(pos, from, to).used[to] == pos.used[from] + 1,
        valid_move(pos, from, to) ==> forall|i: int| 0 <= i < 64 ==> #[trigger] after_move(pos, from, to).used[i] <= 2,
{
    if valid_move(pos, from, to) {
        lemma_moves_exclude_self(pos.pieces, from);
    }
}

/// When a single piece is left and a king is on the board, that piece is the king.
pub proof fn law_last_piece_is_king(pos: Position)
    requires
        well_sized(pos),
        is_won(pos),
        count_kings(pos.pieces) >= 1,
    ensures
        forall|i: int| 0 <= i < 64 && (#[trigger] pos.pieces[i]) is Some ==> pos.pieces[i] == Some(Piece::King),
{
    assert forall|i: int| 0 <= i < 64 && (#[trigger] pos.pieces[i]) is Some implies pos.pieces[i] == Some(Piece::King) by {
        if pos.pieces[i] != Some(Piece::King) {
            lemma_other_piece_counted(pos.pieces, i);
        }
    }
}

/// If a king stands on the board, it is the piece left standing at the
/// end of every solution.
pub proof fn law_king_survives_to_the_end(pos: Position, path: Seq<(int, int)>)
    requires
        well_sized(pos),
        solves(pos, path),
        count_kings(pos.pieces) >= 1,
    ensures
        is_won(play(pos, path)),
        forall|i: int| 0 <= i < 64 && (#[trigger] play(pos, path).pieces[i]) is Some ==> play(pos, path).pieces[i] == Some(Piece::King),
    decreases path.len(),
{
    if path.len() == 0 {
        law_last_piece_is_king(pos);
    } else {
        let next = after_move(pos, path[0].0, path[0].1);
        law_capture_removes_one_piece(pos, path[0].0, path[0].1);
        law_king_never_captured(pos, path[0].0, path[0].1);
        law_king_survives_to_the_end(next, path.drop_first());
    }
}

/// Every solution takes one capture fewer than there are pieces.
pub proof fn law_solution_length(pos: Position, path: Seq<(int, int)>)
    requires
        well_sized(pos),
        solves(pos, path),
    ensures
        path.len() + 1 == count_pieces(pos.pieces),
    decreases path.len(),
{
    if path.len() > 0 {
        law_capture_removes_one_piece(pos, path[0].0, path[0].1);
        law_solution_length(after_move(pos, path[0].0, path[0].1), path.drop_first());
    }
}

} // verus!
