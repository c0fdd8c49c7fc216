//! What a solution is, said without the search: a board that holds one piece
//! for each requested kind, no two of them on one square and none attacking
//! another. The search reaches exactly these boards.
//!
//! The same is said in two ways, and the two are proved to agree. A solution is
//! a valid, peaceful board whose pieces are of the requested kinds, each kind as
//! often as requested. And a solution is the board of a placement: a sequence
//! that gives each requested kind, in the order of the request, a square.

use crate::board::{in_order, lemma_in_order, lemma_piece_order_total, piece_order, BoardView};
use crate::piece::{ChessPiece, Piece};
use crate::search::{lemma_step_size, reachable, step};
use vstd::prelude::*;
use vstd::seq_lib::lemma_sorted_unique;

verus! {

/// `placement` gives each of the kinds a square: the piece at position `i` is of
/// the kind at position `i`, stands on the board, shares its square with no
/// other, and neither attacks another nor is attacked by one.
pub open spec fn is_placement(
    rows: i8,
    cols: i8,
    kinds: Seq<ChessPiece>,
    placement: Seq<Piece>,
) -> bool {
    &&& placement.len() == kinds.len()
    &&& forall|i: int|
        0 <= i < placement.len() ==> (#[trigger] placement[i]).piece == kinds[i] && 1
            <= placement[i].row <= rows && 1 <= placement[i].col <= cols
    &&& forall|i: int, j: int|
        0 <= i < j < placement.len() ==> !(#[trigger] placement[i]).same_square(
            #[trigger] placement[j],
        ) && placement[i].at_peace_with(placement[j])
}

/// The board that holds the pieces of `placement`, in canonical order.
pub open spec fn board_of(rows: i8, cols: i8, placement: Seq<Piece>) -> BoardView {
    BoardView { rows, cols, pieces: placement.sort_by(piece_order()) }
}

/// The kinds of the pieces, in the order of the pieces.
pub open spec fn kinds_of(pieces: Seq<Piece>) -> Seq<ChessPiece> {
    pieces.map_values(|p: Piece| p.piece)
}

/// `board` is a solution for `kinds` on a board of `rows` × `cols` squares: a
/// valid board of these dimensions on which no piece attacks another, and whose
/// pieces are of the kinds requested, each kind as often as it was requested.
/// The order of the request plays no part. Nothing is a solution for no kinds at
/// all.
pub open spec fn is_solution(rows: i8, cols: i8, kinds: Seq<ChessPiece>, board: BoardView) -> bool {
    &&& kinds.len() > 0
    &&& board.rows == rows
    &&& board.cols == cols
    &&& board.is_valid()
    &&& board.is_peaceful()
    &&& kinds_of(board.pieces).to_multiset() == kinds.to_multiset()
}

/// The order in which the kinds are requested plays no part in what a solution
/// is: two requests that name each kind equally often have the same solutions.
pub proof fn lemma_request_order(
    rows: i8,
    cols: i8,
    kinds: Seq<ChessPiece>,
    reordered: Seq<ChessPiece>,
    board: BoardView,
)
    requires
        kinds.to_multiset() == reordered.to_multiset(),
    ensures
        is_solution(rows, cols, kinds, board) == is_solution(rows, cols, reordered, board),
{
    broadcast use vstd::seq_lib::group_to_multiset_ensures;

    assert(kinds.len() == kinds.to_multiset().len());
    assert(reordered.len() == reordered.to_multiset().len());
}

/// Nothing is a solution for no kinds at all.
pub proof fn lemma_no_kinds_no_solution(rows: i8, cols: i8, board: BoardView)
    ensures
        !is_solution(rows, cols, Seq::<ChessPiece>::empty(), board),
{
}

/// Sequences that hold the same pieces hold the same kinds.
proof fn lemma_same_pieces_same_kinds(a: Seq<Piece>, b: Seq<Piece>)
    requires
        a.to_multiset() == b.to_multiset(),
    ensures
        kinds_of(a).to_multiset() == kinds_of(b).to_multiset(),
    decreases a.len(),
{
    broadcast use vstd::seq_lib::group_to_multiset_ensures;

    assert(a.len() == a.to_multiset().len());
    assert(b.len() == b.to_multiset().len());
    if a.len() == 0 {
        assert(kinds_of(a) =~= kinds_of(b));
    } else {
        let x = a.last();
        assert(a.contains(x)) by {
            assert(a[a.len() - 1] == x);
        }
        assert(a.contains(x) <==> a.to_multiset().count(x) > 0);
        assert(b.contains(x) <==> b.to_multiset().count(x) > 0);
        let k = choose|k: int| 0 <= k < b.len() && b[k] == x;
        let shorter_a = a.drop_last();
        let shorter_b = b.remove(k);
        assert(shorter_a =~= a.remove(a.len() - 1));
        assert(a.remove(a.len() - 1).to_multiset() == a.to_multiset().remove(x));
        assert(shorter_b.to_multiset() == b.to_multiset().remove(x));
        lemma_same_pieces_same_kinds(shorter_a, shorter_b);
        assert(kinds_of(a) =~= kinds_of(shorter_a).push(x.piece));
        assert(kinds_of(b) =~= kinds_of(shorter_b).insert(k, x.piece));
        assert(kinds_of(shorter_b).insert(k, x.piece).to_multiset() == kinds_of(
            shorter_b,
        ).to_multiset().insert(x.piece));
        assert(kinds_of(shorter_a).push(x.piece).to_multiset() == kinds_of(
            shorter_a,
        ).to_multiset().insert(x.piece));
    }
}

/// Pieces of the requested kinds, each kind as often as requested, can be put
/// in the order of the request.
proof fn lemma_arrange(pieces: Seq<Piece>, kinds: Seq<ChessPiece>) -> (arranged: Seq<Piece>)
    requires
        kinds_of(pieces).to_multiset() == kinds.to_multiset(),
    ensures
        arranged.to_multiset() == pieces.to_multiset(),
        kinds_of(arranged) == kinds,
    decreases kinds.len(),
{
    broadcast use vstd::seq_lib::group_to_multiset_ensures;
    broadcast use vstd::multiset::group_multiset_axioms;

    assert(kinds.len() == kinds.to_multiset().len());
    assert(kinds_of(pieces).len() == kinds_of(pieces).to_multiset().len());
    if kinds.len() == 0 {
        assert(kinds_of(pieces) =~= kinds);
        pieces
    } else {
        let kind = kinds.last();
        assert(kinds.contains(kind)) by {
            assert(kinds[kinds.len() - 1] == kind);
        }
        assert(kinds.contains(kind) <==> kinds.to_multiset().count(kind) > 0);
        assert(kinds_of(pieces).contains(kind) <==> kinds_of(pieces).to_multiset().count(kind) > 0);
        let i = choose|i: int| 0 <= i < kinds_of(pieces).len() && kinds_of(pieces)[i] == kind;
        let piece = pieces[i];
        let rest = pieces.remove(i);
        assert(kinds_of(rest) =~= kinds_of(pieces).remove(i));
        assert(kinds_of(pieces).remove(i).to_multiset() == kinds_of(pieces).to_multiset().remove(
            kind,
        ));
        assert(kinds.drop_last() =~= kinds.remove(kinds.len() - 1));
        assert(kinds.remove(kinds.len() - 1).to_multiset() == kinds.to_multiset().remove(kind));
        let arranged_rest = lemma_arrange(rest, kinds.drop_last());
        let arranged = arranged_rest.push(piece);
        assert(rest.to_multiset() == pieces.to_multiset().remove(piece));
        assert(pieces.contains(piece) <==> pieces.to_multiset().count(piece) > 0);
        assert(pieces.contains(piece)) by {
            assert(pieces[i] == piece);
        }
        assert(arranged.to_multiset() =~= pieces.to_multiset());
        assert(kinds_of(arranged) =~= kinds_of(arranged_rest).push(kind));
        assert(kinds.drop_last().push(kind) =~= kinds);
        arranged
    }
}

/// Sequences that hold the same pieces hold each of them at some position.
proof fn lemma_same_pieces_found(a: Seq<Piece>, b: Seq<Piece>)
    requires
        a.to_multiset() == b.to_multiset(),
    ensures
        a.len() == b.len(),
        a.no_duplicates() ==> b.no_duplicates(),
        forall|p: Piece| a.contains(p) <==> b.contains(p),
{
    broadcast use vstd::seq_lib::group_to_multiset_ensures;

    assert(a.len() == a.to_multiset().len());
    assert(b.len() == b.to_multiset().len());
    assert forall|p: Piece| a.contains(p) <==> b.contains(p) by {
        assert(a.contains(p) <==> a.to_multiset().count(p) > 0);
        assert(b.contains(p) <==> b.to_multiset().count(p) > 0);
    }
    if a.no_duplicates() {
        a.lemma_multiset_has_no_duplicates();
        b.lemma_multiset_has_no_duplicates_conv();
    }
}

/// The board of a placement is a solution.
pub proof fn lemma_placement_is_solution(
    rows: i8,
    cols: i8,
    kinds: Seq<ChessPiece>,
    placement: Seq<Piece>,
)
    requires
        kinds.len() > 0,
        is_placement(rows, cols, kinds, placement),
    ensures
        is_solution(rows, cols, kinds, board_of(rows, cols, placement)),
{
    let board = board_of(rows, cols, placement);
    lemma_board_of(rows, cols, placement);
    assert(placement.no_duplicates()) by {
        assert forall|i: int, j: int|
            0 <= i < placement.len() && 0 <= j < placement.len() && i != j implies placement[i]
            != placement[j] by {
            if i < j {
                assert(!placement[i].same_square(placement[j]));
            } else {
                assert(!placement[j].same_square(placement[i]));
            }
        }
    }
    lemma_same_pieces_found(placement, board.pieces);
    assert forall|i: int, j: int| 0 <= i < j < board.pieces.len() implies !(
    #[trigger] board.pieces[i]).same_square(#[trigger] board.pieces[j])
        && board.pieces[i].at_peace_with(board.pieces[j]) && board.pieces[i]
        != board.pieces[j] by {
        let p = board.pieces[i];
        let q = board.pieces[j];
        assert(board.pieces.contains(p) && board.pieces.contains(q));
        let a = choose|a: int| 0 <= a < placement.len() && placement[a] == p;
        let b = choose|b: int| 0 <= b < placement.len() && placement[b] == q;
        if a < b {
            assert(!placement[a].same_square(placement[b]));
        } else if b < a {
            assert(!placement[b].same_square(placement[a]));
        }
    }
    assert forall|i: int| 0 <= i < board.pieces.len() implies board.has_square(
        (#[trigger] board.pieces[i]).row,
        board.pieces[i].col,
    ) by {
        assert(board.pieces.contains(board.pieces[i]));
        let a = choose|a: int| 0 <= a < placement.len() && placement[a] == board.pieces[i];
        assert(placement[a].piece == kinds[a]);
    }
    lemma_same_pieces_same_kinds(board.pieces, placement);
    assert(kinds_of(placement) =~= kinds) by {
        assert forall|i: int| 0 <= i < placement.len() implies kinds_of(placement)[i]
            == kinds[i] by {
            assert(placement[i].piece == kinds[i]);
        }
    }
}

/// A solution is the board of a placement.
pub proof fn lemma_solution_has_placement(
    rows: i8,
    cols: i8,
    kinds: Seq<ChessPiece>,
    board: BoardView,
) -> (placement: Seq<Piece>)
    requires
        is_solution(rows, cols, kinds, board),
    ensures
        is_placement(rows, cols, kinds, placement),
        board == board_of(rows, cols, placement),
{
    let placement = lemma_arrange(board.pieces, kinds);
    crate::board::lemma_canonical_counts(board);
    lemma_same_pieces_found(board.pieces, placement);
    assert(kinds_of(placement).len() == placement.len());
    assert forall|i: int| 0 <= i < placement.len() implies (#[trigger] placement[i]).piece
        == kinds[i] && 1 <= placement[i].row <= rows && 1 <= placement[i].col <= cols by {
        assert(kinds_of(placement)[i] == placement[i].piece);
        assert(placement.contains(placement[i]));
        let a = choose|a: int| 0 <= a < board.pieces.len() && board.pieces[a] == placement[i];
        assert(board.has_square(board.pieces[a].row, board.pieces[a].col));
    }
    assert forall|i: int, j: int| 0 <= i < j < placement.len() implies !(
    #[trigger] placement[i]).same_square(#[trigger] placement[j]) && placement[i].at_peace_with(
        placement[j],
    ) by {
        assert(placement.contains(placement[i]) && placement.contains(placement[j]));
        let a = choose|a: int| 0 <= a < board.pieces.len() && board.pieces[a] == placement[i];
        let b = choose|b: int| 0 <= b < board.pieces.len() && board.pieces[b] == placement[j];
        assert(placement[i] != placement[j]);
        if a < b {
            assert(!board.pieces[a].same_square(board.pieces[b]));
            assert(board.pieces[a].at_peace_with(board.pieces[b]));
        } else if b < a {
            assert(!board.pieces[b].same_square(board.pieces[a]));
            assert(board.pieces[b].at_peace_with(board.pieces[a]));
        }
    }
    lemma_board_of(rows, cols, placement);
    lemma_piece_order_total();
    lemma_in_order(board.pieces);
    lemma_in_order(board_of(rows, cols, placement).pieces);
    lemma_sorted_unique(board.pieces, board_of(rows, cols, placement).pieces, piece_order());
    placement
}

/// Pieces in order hold what went in, each as often.
pub proof fn lemma_board_of(rows: i8, cols: i8, placement: Seq<Piece>)
    ensures
        board_of(rows, cols, placement).pieces.to_multiset() == placement.to_multiset(),
        board_of(rows, cols, placement).pieces.len() == placement.len(),
        in_order(board_of(rows, cols, placement).pieces),
        forall|p: Piece| #[trigger]
            board_of(rows, cols, placement).pieces.contains(p) <==> placement.contains(p),
{
    broadcast use vstd::seq_lib::group_to_multiset_ensures;

    let pieces = board_of(rows, cols, placement).pieces;
    lemma_piece_order_total();
    placement.lemma_sort_by_ensures(piece_order());
    lemma_in_order(pieces);
    assert(pieces.len() == pieces.to_multiset().len());
    assert(placement.len() == placement.to_multiset().len());
    assert forall|p: Piece| #[trigger] pieces.contains(p) <==> placement.contains(p) by {
        assert(pieces.contains(p) <==> pieces.to_multiset().count(p) > 0);
        assert(placement.contains(p) <==> placement.to_multiset().count(p) > 0);
    }
}

/// Placing a piece on the board of a placement gives the board of the placement
/// with that piece behind it, if the piece is not on the board yet.
proof fn lemma_board_of_push(rows: i8, cols: i8, placement: Seq<Piece>, candidate: Piece)
    requires
        !placement.contains(candidate),
    ensures
        board_of(rows, cols, placement).place(candidate) == board_of(
            rows,
            cols,
            placement.push(candidate),
        ),
{
    broadcast use vstd::seq_lib::group_to_multiset_ensures;

    let before = board_of(rows, cols, placement);
    lemma_board_of(rows, cols, placement);
    lemma_board_of(rows, cols, placement.push(candidate));
    before.lemma_place(candidate);
    let a = before.place(candidate).pieces;
    let b = board_of(rows, cols, placement.push(candidate)).pieces;
    assert(a.to_multiset() =~= b.to_multiset());
    lemma_piece_order_total();
    lemma_in_order(a);
    lemma_in_order(b);
    lemma_sorted_unique(a, b, piece_order());
}

/// A board that the search reaches from the empty board holds a placement of
/// the kinds.
pub proof fn lemma_reached_is_placed(
    rows: i8,
    cols: i8,
    kinds: Seq<ChessPiece>,
    board: BoardView,
) -> (placement: Seq<Piece>)
    requires
        reachable(BoardView::empty(rows, cols), kinds, board),
    ensures
        is_placement(rows, cols, kinds, placement),
        board == board_of(rows, cols, placement),
    decreases kinds.len(),
{
    if kinds.len() == 0 {
        let placement = Seq::<Piece>::empty();
        lemma_board_of(rows, cols, placement);
        assert(board_of(rows, cols, placement).pieces =~= Seq::<Piece>::empty());
        placement
    } else {
        let (before, candidate) = choose|before: BoardView, candidate: Piece|
            reachable(BoardView::empty(rows, cols), kinds.drop_last(), before) && #[trigger] step(
                before,
                kinds.last(),
                candidate,
                board,
            );
        let earlier = lemma_reached_is_placed(rows, cols, kinds.drop_last(), before);
        let placement = earlier.push(candidate);
        lemma_board_of(rows, cols, earlier);
        lemma_step_size(before, kinds.last(), candidate, board);
        lemma_board_of_push(rows, cols, earlier, candidate);
        assert forall|i: int, j: int| 0 <= i < j < placement.len() implies !(
        #[trigger] placement[i]).same_square(#[trigger] placement[j]) && placement[i].at_peace_with(
            placement[j],
        ) by {
            if j == placement.len() - 1 {
                assert(earlier.contains(earlier[i]));
                assert(before.pieces.contains(earlier[i]));
                let k = choose|k: int| 0 <= k < before.pieces.len() && before.pieces[k] == earlier[i];
                assert(before.pieces[k].at_peace_with(candidate));
                assert(!(before.pieces[k].row == candidate.row && before.pieces[k].col
                    == candidate.col));
            } else {
                assert(!earlier[i].same_square(earlier[j]));
            }
        }
        assert forall|i: int| 0 <= i < placement.len() implies (#[trigger] placement[i]).piece
            == kinds[i] && 1 <= placement[i].row <= rows && 1 <= placement[i].col <= cols by {
            if i < earlier.len() {
                assert(earlier[i].piece == kinds.drop_last()[i]);
            }
        }
        placement
    }
}

/// The board of a placement of the kinds is one that the search reaches from the
/// empty board.
pub proof fn lemma_placed_is_reached(
    rows: i8,
    cols: i8,
    kinds: Seq<ChessPiece>,
    placement: Seq<Piece>,
)
    requires
        is_placement(rows, cols, kinds, placement),
    ensures
        reachable(BoardView::empty(rows, cols), kinds, board_of(rows, cols, placement)),
    decreases kinds.len(),
{
    if kinds.len() == 0 {
        lemma_board_of(rows, cols, placement);
        assert(board_of(rows, cols, placement).pieces =~= Seq::<Piece>::empty());
    } else {
        let earlier = placement.drop_last();
        let candidate = placement.last();
        let before = board_of(rows, cols, earlier);
        assert forall|i: int, j: int| 0 <= i < j < earlier.len() implies !(
        #[trigger] earlier[i]).same_square(#[trigger] earlier[j]) && earlier[i].at_peace_with(
            earlier[j],
        ) by {
            assert(!placement[i].same_square(placement[j]));
        }
        assert forall|i: int| 0 <= i < earlier.len() implies (#[trigger] earlier[i]).piece
            == kinds.drop_last()[i] && 1 <= earlier[i].row <= rows && 1 <= earlier[i].col
            <= cols by {
            assert(placement[i].piece == kinds[i]);
        }
        lemma_placed_is_reached(rows, cols, kinds.drop_last(), earlier);
        lemma_board_of(rows, cols, earlier);
        assert forall|k: int| 0 <= k < before.pieces.len() implies !((
        #[trigger] before.pieces[k]).row == candidate.row && before.pieces[k].col == candidate.col)
            && before.pieces[k].at_peace_with(candidate) by {
            assert(before.pieces.contains(before.pieces[k]));
            assert(earlier.contains(before.pieces[k]));
            let i = choose|i: int| 0 <= i < earlier.len() && earlier[i] == before.pieces[k];
            assert(!placement[i].same_square(placement[placement.len() - 1]));
        }
        assert(before.admits(candidate));
        if earlier.contains(candidate) {
            let i = choose|i: int| 0 <= i < earlier.len() && earlier[i] == candidate;
            assert(placement[i].same_square(placement[placement.len() - 1]));
        }
        lemma_board_of_push(rows, cols, earlier, candidate);
        assert(earlier.push(candidate) =~= placement);
        assert(candidate.piece == kinds.last());
        assert(step(before, kinds.last(), candidate, board_of(rows, cols, placement)));
    }
}

/// The boards that the search reaches from the empty board by placing all the
/// kinds are the solutions for the kinds.
pub proof fn lemma_reachable_is_solution(rows: i8, cols: i8, kinds: Seq<ChessPiece>, board: BoardView)
    ensures
        (kinds.len() > 0 && reachable(BoardView::empty(rows, cols), kinds, board)) <==> is_solution(
            rows,
            cols,
            kinds,
            board,
        ),
{
    if kinds.len() > 0 && reachable(BoardView::empty(rows, cols), kinds, board) {
        let placement = lemma_reached_is_placed(rows, cols, kinds, board);
        lemma_placement_is_solution(rows, cols, kinds, placement);
    }
    if is_solution(rows, cols, kinds, board) {
        let placement = lemma_solution_has_placement(rows, cols, kinds, board);
        lemma_placed_is_reached(rows, cols, kinds, placement);
    }
}

} // verus!
