//! A board whose pieces are held in a persistent hash set, so that a board and
//! the boards derived from it share what they have in common.
//!
//! Such a board stands for the same value as a [`crate::board::Board`] with the
//! same pieces: its view is the canonical form of its set of pieces. The search
//! of this module walks persistent boards by recursion and keeps the boards it
//! has seen, and the ones it has finished, in canonical form.

use crate::board::{
    in_order, lemma_in_order, lemma_piece_order_total, piece_order, sorted_copy, BoardView,
};
use crate::board_set::BoardSet;
use crate::piece::{ChessPiece, Piece};
use crate::search::{
    finished, lemma_reachable_further, lemma_reachable_size, lemma_search_ends, lemma_step_size,
    lemma_successors_end, lemma_successors_next_row, lemma_successors_next_square,
    lemma_successors_start, on_stack, passed, reachable, search_inv, settled, step,
    successors_before, SearchTask,
};
use vstd::prelude::*;

verus! {

/// `im::HashSet`, the persistent hash set. Nothing inside it is looked at: what
/// a set holds is known through [`placed`] alone.
#[verifier::external_type_specification]
#[verifier::external_body]
#[verifier::reject_recursive_types(A)]
#[verifier::reject_recursive_types(S)]
pub struct ExHashSet<A, S>(im::HashSet<A, S>);

/// The pieces that a persistent set holds: those that `im::HashSet::contains`
/// finds in it, and that `im::HashSet::iter` yields.
pub uninterp spec fn placed(pieces: im::HashSet<Piece>) -> Set<Piece>;

/// `im::HashSet::new`: a set that holds nothing.
#[verifier::external_body]
fn no_pieces() -> (set: im::HashSet<Piece>)
    ensures
        placed(set) == Set::<Piece>::empty(),
{
    im::HashSet::new()
}

/// `im::HashSet::update`: a new set that holds what `set` holds and `piece`;
/// `set` itself is left as it is. A set holds finitely many pieces.
#[verifier::external_body]
fn with_piece(set: &im::HashSet<Piece>, piece: Piece) -> (out: im::HashSet<Piece>)
    ensures
        placed(out) == placed(*set).insert(piece),
        placed(out).finite(),
{
    set.update(piece)
}

/// `Clone::clone` of `im::HashSet`: a set that holds what `set` holds.
#[verifier::external_body]
fn shared(set: &im::HashSet<Piece>) -> (copy: im::HashSet<Piece>)
    ensures
        placed(copy) == placed(*set),
{
    set.clone()
}

/// `im::HashSet::iter`: the pieces that `set` holds, each once. The order in
/// which they come is not stated.
#[verifier::external_body]
fn pieces_of(set: &im::HashSet<Piece>) -> (list: Vec<Piece>)
    ensures
        list@.no_duplicates(),
        list@.to_set() == placed(*set),
{
    set.iter().copied().collect()
}

/// The pieces of a finite set in canonical order.
pub open spec fn canonical(pieces: Set<Piece>) -> Seq<Piece> {
    pieces.to_seq().sort_by(piece_order())
}

/// A set turned into a sequence yields each of its elements once.
proof fn lemma_to_seq_once(pieces: Set<Piece>)
    requires
        pieces.finite(),
    ensures
        pieces.to_seq().no_duplicates(),
        pieces.to_seq().to_set() == pieces,
    decreases pieces.len(),
{
    broadcast use vstd::set::group_set_axioms;

    pieces.lemma_to_seq_to_set_id();
    if pieces.len() != 0 {
        let x = pieces.choose();
        let rest = pieces.remove(x);
        lemma_to_seq_once(rest);
        rest.lemma_to_seq_to_set_id();
        let head = Seq::<Piece>::empty().push(x);
        let tail = rest.to_seq();
        assert(pieces.to_seq() == head + tail);
        assert forall|i: int, j: int| 0 <= i < j < (head + tail).len() implies (head + tail)[i] != (
        head + tail)[j] by {
            if i == 0 {
                assert(tail.to_set().contains(tail[j - 1]));
            } else {
                assert(tail[i - 1] != tail[j - 1]);
            }
        }
    }
}

/// Two sequences that hold the same pieces, each once, hold each as often.
proof fn lemma_same_pieces(a: Seq<Piece>, b: Seq<Piece>)
    requires
        a.no_duplicates(),
        b.no_duplicates(),
        a.to_set() == b.to_set(),
    ensures
        a.to_multiset() == b.to_multiset(),
{
    broadcast use vstd::seq_lib::group_to_multiset_ensures;

    a.lemma_multiset_has_no_duplicates();
    b.lemma_multiset_has_no_duplicates();
    assert forall|p: Piece| a.to_multiset().count(p) == b.to_multiset().count(p) by {
        assert(a.contains(p) == a.to_set().contains(p));
        assert(b.contains(p) == b.to_set().contains(p));
        assert(a.contains(p) <==> a.to_multiset().count(p) > 0);
        assert(b.contains(p) <==> b.to_multiset().count(p) > 0);
    }
    assert(a.to_multiset() =~= b.to_multiset());
}

/// Any list of the pieces of a set, each once, comes to the canonical order of
/// the set when it is sorted.
pub proof fn lemma_canonical_of_list(list: Seq<Piece>, pieces: Set<Piece>)
    requires
        list.no_duplicates(),
        list.to_set() == pieces,
    ensures
        pieces.finite(),
        list.sort_by(piece_order()) == canonical(pieces),
        in_order(canonical(pieces)),
        canonical(pieces).no_duplicates(),
        canonical(pieces).to_set() == pieces,
        canonical(pieces).to_multiset() == list.to_multiset(),
{
    broadcast use vstd::seq_lib::group_to_multiset_ensures;

    vstd::seq_lib::seq_to_set_is_finite(list);
    lemma_to_seq_once(pieces);
    lemma_same_pieces(list, pieces.to_seq());
    lemma_piece_order_total();
    list.lemma_sort_by_ensures(piece_order());
    pieces.to_seq().lemma_sort_by_ensures(piece_order());
    vstd::seq_lib::lemma_sorted_unique(
        list.sort_by(piece_order()),
        canonical(pieces),
        piece_order(),
    );
    let sorted = canonical(pieces);
    lemma_in_order(sorted);
    list.lemma_multiset_has_no_duplicates();
    sorted.lemma_multiset_has_no_duplicates_conv();
    assert forall|p: Piece| sorted.to_set().contains(p) <==> pieces.contains(p) by {
        assert(sorted.contains(p) <==> sorted.to_multiset().count(p) > 0);
        assert(list.contains(p) <==> list.to_multiset().count(p) > 0);
        assert(list.to_set().contains(p) == list.contains(p));
    }
    assert(sorted.to_set() =~= pieces);
}

/// The canonical order of a finite set holds the pieces of the set, each once,
/// in order.
pub proof fn lemma_canonical(pieces: Set<Piece>)
    requires
        pieces.finite(),
    ensures
        in_order(canonical(pieces)),
        canonical(pieces).no_duplicates(),
        canonical(pieces).to_set() == pieces,
{
    lemma_to_seq_once(pieces);
    lemma_canonical_of_list(pieces.to_seq(), pieces);
}

/// A board of `m` × `n` squares whose pieces are held in a persistent set.
#[derive(PartialEq, Eq, Hash, Debug)]
pub struct Board {
    pub m: i8,
    pub n: i8,
    pub used_pieces: im::HashSet<Piece>,
}

impl Clone for Board {
    fn clone(&self) -> (copy: Self)
        ensures
            copy@ == self@,
    {
        Board { m: self.m, n: self.n, used_pieces: shared(&self.used_pieces) }
    }
}

impl View for Board {
    type V = BoardView;

    open spec fn view(&self) -> BoardView {
        board_holding(self.m, self.n, placed(self.used_pieces))
    }
}

/// The board of the given dimensions that holds the given pieces.
pub open spec fn board_holding(rows: i8, cols: i8, pieces: Set<Piece>) -> BoardView {
    BoardView { rows, cols, pieces: canonical(pieces) }
}

/// Adding a piece to the set of a board is placing it on the board.
pub proof fn lemma_canonical_insert(rows: i8, cols: i8, pieces: Set<Piece>, candidate: Piece)
    requires
        pieces.finite(),
    ensures
        board_holding(rows, cols, pieces).place(candidate) == board_holding(
            rows,
            cols,
            pieces.insert(candidate),
        ),
{
    let before = canonical(pieces);
    lemma_canonical(pieces);
    assert(before.contains(candidate) == before.to_set().contains(candidate));
    if pieces.contains(candidate) {
        assert(pieces.insert(candidate) =~= pieces);
    } else {
        let list = before.push(candidate);
        assert forall|i: int, j: int| 0 <= i < j < list.len() implies list[i] != list[j] by {
            if j == list.len() - 1 {
                assert(before.to_set().contains(before[i]));
            }
        }
        assert forall|p: Piece| list.to_set().contains(p) <==> pieces.insert(candidate).contains(
            p,
        ) by {
            assert(list.to_set().contains(p) == list.contains(p));
            assert(before.to_set().contains(p) == before.contains(p));
            if list.contains(p) {
                let i = choose|i: int| 0 <= i < list.len() && list[i] == p;
                if i < before.len() {
                    assert(before[i] == p);
                }
            }
            if before.contains(p) {
                let i = choose|i: int| 0 <= i < before.len() && before[i] == p;
                assert(list[i] == p);
            }
            if p == candidate {
                assert(list[list.len() - 1] == p);
            }
        }
        assert(list.to_set() =~= pieces.insert(candidate));
        lemma_canonical_of_list(list, pieces.insert(candidate));
    }
}

impl Board {
    /// A board with the given dimensions and pieces.
    pub fn new(m: i8, n: i8, used_pieces: im::HashSet<Piece>) -> (board: Board)
        ensures
            board.m == m,
            board.n == n,
            board.used_pieces == used_pieces,
    {
        Board { m, n, used_pieces }
    }

    /// A board with the given dimensions and no piece on it.
    pub fn empty(m: i8, n: i8) -> (board: Board)
        ensures
            board@ == BoardView::empty(m, n),
            board@.is_valid(),
            board@.is_peaceful(),
    {
        let board = Board { m, n, used_pieces: no_pieces() };
        proof {
            let none = Seq::<Piece>::empty();
            assert(none.to_set() =~= Set::<Piece>::empty());
            lemma_canonical_of_list(none, Set::<Piece>::empty());
            lemma_piece_order_total();
            none.lemma_sort_by_ensures(piece_order());
            broadcast use vstd::seq_lib::group_to_multiset_ensures;
            let sorted = none.sort_by(piece_order());
            assert(sorted.len() == sorted.to_multiset().len());
            assert(none.len() == none.to_multiset().len());
            assert(board@.pieces =~= none);
        }
        board
    }

    /// The same board with its pieces in a vector, in canonical order.
    pub fn canonical_form(&self) -> (board: crate::board::Board)
        ensures
            board@ == self@,
            board@.is_canonical(),
    {
        let list = pieces_of(&self.used_pieces);
        proof {
            lemma_canonical_of_list(list@, placed(self.used_pieces));
            let sorted = canonical(placed(self.used_pieces));
            assert forall|i: int, j: int| 0 <= i < j < sorted.len() implies sorted[i]
                != sorted[j] by {}
        }
        crate::board::Board::new(self.m, self.n, sorted_copy(&list))
    }

    /// Whether `chess_piece` neither attacks a piece of the board nor is attacked
    /// by one.
    pub fn is_safe(self, chess_piece: Piece) -> (safe: bool)
        ensures
            safe == self@.is_safe(chess_piece),
    {
        let list = pieces_of(&self.used_pieces);
        proof {
            lemma_canonical_of_list(list@, placed(self.used_pieces));
        }
        let ghost sorted = self@.pieces;
        let mut i: usize = 0;
        while i < list.len()
            invariant
                i <= list.len(),
                sorted == self@.pieces,
                sorted.to_set() == list@.to_set(),
                forall|k: int| 0 <= k < i ==> (#[trigger] list[k]).at_peace_with(chess_piece),
            decreases list.len() - i,
        {
            let piece = list[i];
            if piece.attacks(chess_piece) || chess_piece.attacks(piece) {
                proof {
                    assert(!list[i as int].at_peace_with(chess_piece));
                    assert(list@.to_set().contains(list[i as int]));
                    assert(sorted.to_set().contains(list[i as int]));
                    let k = choose|k: int| 0 <= k < sorted.len() && sorted[k] == list[i as int];
                    assert(!sorted[k].at_peace_with(chess_piece));
                }
                return false;
            }
            i += 1;
        }
        proof {
            assert forall|k: int| 0 <= k < sorted.len() implies (#[trigger] sorted[k]).at_peace_with(
                chess_piece,
            ) by {
                assert(sorted.to_set().contains(sorted[k]));
                assert(list@.to_set().contains(sorted[k]));
                let j = choose|j: int| 0 <= j < list@.len() && list@[j] == sorted[k];
                assert(list[j].at_peace_with(chess_piece));
            }
        }
        true
    }

    /// The board with `chess_piece` added. The board itself is left as it is;
    /// the new board shares its pieces.
    pub fn place(&self, chess_piece: Piece) -> (next: Board)
        ensures
            next@ == self@.place(chess_piece),
            next.m == self.m,
            next.n == self.n,
            placed(next.used_pieces) == placed(self.used_pieces).insert(chess_piece),
            self@.is_valid() && self@.admits(chess_piece) ==> next@.is_valid(),
            self@.is_valid() && self@.is_peaceful() && self@.admits(chess_piece)
                ==> next@.is_peaceful(),
    {
        let updated_pieces = with_piece(&self.used_pieces, chess_piece);
        proof {
            if self@.is_valid() && self@.admits(chess_piece) {
                crate::board::lemma_place_keeps_valid(self@, chess_piece);
                if self@.is_peaceful() {
                    crate::board::lemma_place_keeps_peace(self@, chess_piece);
                }
            }
            let before = placed(self.used_pieces);
            if before.contains(chess_piece) {
                assert(before.insert(chess_piece) =~= before);
            } else {
                assert(before.insert(chess_piece).remove(chess_piece) =~= before);
            }
            lemma_canonical_insert(self.m, self.n, before, chess_piece);
        }
        Board::new(self.m, self.n, updated_pieces)
    }
}

/// What holds of the search from `start` for `kinds` while it works on a board
/// with `d` of the kinds placed: the tested boards lie on the way and the found
/// ones at its end, and every tested board with more than `d` of the kinds
/// placed has been dealt with.
spec fn deep_inv(
    start: BoardView,
    kinds: Seq<ChessPiece>,
    found0: Set<BoardView>,
    d: int,
    tested: Set<BoardView>,
    found: Set<BoardView>,
) -> bool {
    &&& tested.subset_of(passed(start, kinds))
    &&& found.subset_of(found0.union(finished(start, kinds)))
    &&& found0.subset_of(found)
    &&& forall|e: int, board: BoardView|
        d < e < kinds.len() && #[trigger] reachable(start, kinds.take(e), board) && tested.contains(
            board,
        ) ==> settled(kinds, e, board, tested, found)
}

/// A board that is new among the tested ones can be worked on.
proof fn lemma_deep_enter(
    start: BoardView,
    kinds: Seq<ChessPiece>,
    found0: Set<BoardView>,
    d: int,
    tested: Set<BoardView>,
    found: Set<BoardView>,
    next: BoardView,
)
    requires
        0 <= d,
        d + 1 < kinds.len(),
        deep_inv(start, kinds, found0, d, tested, found),
        reachable(start, kinds.take(d + 1), next),
    ensures
        deep_inv(start, kinds, found0, d + 1, tested.insert(next), found),
{
    let tested2 = tested.insert(next);
    assert forall|e: int, board: BoardView|
        d + 1 < e < kinds.len() && #[trigger] reachable(start, kinds.take(e), board)
            && tested2.contains(board) implies settled(kinds, e, board, tested2, found) by {
        if board == next {
            lemma_reachable_size(start, kinds.take(e), board);
            lemma_reachable_size(start, kinds.take(d + 1), board);
        } else {
            assert(settled(kinds, e, board, tested, found));
        }
    }
}

/// When the work on a board is done, the search is where it was, one board
/// further.
proof fn lemma_deep_leave(
    start: BoardView,
    kinds: Seq<ChessPiece>,
    found0: Set<BoardView>,
    d: int,
    tested: Set<BoardView>,
    found: Set<BoardView>,
    next: BoardView,
    tested2: Set<BoardView>,
    found2: Set<BoardView>,
)
    requires
        0 <= d,
        d + 1 < kinds.len(),
        deep_inv(start, kinds, found0, d, tested, found),
        deep_inv(start, kinds, found0, d + 1, tested2, found2),
        tested.insert(next).subset_of(tested2),
        found.subset_of(found2),
        reachable(start, kinds.take(d + 1), next),
        settled(kinds, d + 1, next, tested2, found2),
        forall|b: BoardView|
            tested2.contains(b) && !tested.insert(next).contains(b) ==> b.pieces.len()
                > next.pieces.len(),
    ensures
        deep_inv(start, kinds, found0, d, tested2, found2),
{
    assert forall|e: int, board: BoardView|
        d < e < kinds.len() && #[trigger] reachable(start, kinds.take(e), board) && tested2.contains(
            board,
        ) implies settled(kinds, e, board, tested2, found2) by {
        if e == d + 1 {
            if board == next {
            } else if tested.contains(board) {
                assert(settled(kinds, e, board, tested, found));
            } else {
                lemma_reachable_size(start, kinds.take(e), board);
                lemma_reachable_size(start, kinds.take(d + 1), next);
            }
        }
    }
}

/// A board with the last kind placed joins the found ones.
proof fn lemma_deep_found(
    start: BoardView,
    kinds: Seq<ChessPiece>,
    found0: Set<BoardView>,
    d: int,
    tested: Set<BoardView>,
    found: Set<BoardView>,
    next: BoardView,
)
    requires
        0 <= d,
        d + 1 == kinds.len(),
        deep_inv(start, kinds, found0, d, tested, found),
        reachable(start, kinds.take(d + 1), next),
    ensures
        deep_inv(start, kinds, found0, d, tested, found.insert(next)),
{
    assert(kinds.take(d + 1) =~= kinds);
    let found2 = found.insert(next);
    assert forall|e: int, board: BoardView|
        d < e < kinds.len() && #[trigger] reachable(start, kinds.take(e), board) && tested.contains(
            board,
        ) implies settled(kinds, e, board, tested, found2) by {
        assert(settled(kinds, e, board, tested, found));
    }
}

/// Works on `board`, on which the first `d` of `kinds` have been placed: tries
/// the next kind on every square, and goes on from each board that comes of it
/// and has not been tested before.
fn explore(
    board: &Board,
    kinds: &Vec<ChessPiece>,
    d: usize,
    solutions: &mut BoardSet,
    tested_configurations: &mut BoardSet,
    Ghost(start): Ghost<BoardView>,
    Ghost(found0): Ghost<Set<BoardView>>,
)
    requires
        d < kinds@.len(),
        reachable(start, kinds@.take(d as int), board@),
        deep_inv(start, kinds@, found0, d as int, old(tested_configurations)@, old(solutions)@),
    ensures
        deep_inv(start, kinds@, found0, d as int, final(tested_configurations)@, final(solutions)@),
        old(tested_configurations)@.subset_of(final(tested_configurations)@),
        old(solutions)@.subset_of(final(solutions)@),
        settled(kinds@, d as int, board@, final(tested_configurations)@, final(solutions)@),
        forall|b: BoardView|
            final(tested_configurations)@.contains(b) && !old(tested_configurations)@.contains(b)
                ==> b.pieces.len() > board@.pieces.len(),
    decreases kinds@.len() - d,
{
    let kind = kinds[d];
    let more = d < kinds.len() - 1;
    let flat = board.canonical_form();
    let ghost here = board@;
    let ghost tested_in = tested_configurations@;
    let ghost found_in = solutions@;
    proof {
        lemma_successors_start(here, kind);
    }
    let mut row: i16 = 1;
    while row <= flat.rows as i16
        invariant
            1 <= row <= 128,
            row <= flat.rows + 1 || row == 1,
            here == board@,
            flat@ == here,
            d < kinds@.len() <= usize::MAX,
            kind == kinds@[d as int],
            more == (d + 1 < kinds@.len()),
            reachable(start, kinds@.take(d as int), here),
            deep_inv(start, kinds@, found0, d as int, tested_configurations@, solutions@),
            tested_in.subset_of(tested_configurations@),
            found_in.subset_of(solutions@),
            successors_before(here, kind, row as int, 1).subset_of(
                if more {
                    tested_configurations@
                } else {
                    solutions@
                },
            ),
            forall|b: BoardView|
                tested_configurations@.contains(b) && !tested_in.contains(b) ==> b.pieces.len()
                    > here.pieces.len(),
        decreases 128 - row,
    {
        let mut col: i16 = 1;
        while col <= flat.cols as i16
            invariant
                1 <= row <= 127,
                row <= flat.rows,
                1 <= col <= 128,
                col <= flat.cols + 1 || col == 1,
                here == board@,
                flat@ == here,
                d < kinds@.len() <= usize::MAX,
                kind == kinds@[d as int],
                more == (d + 1 < kinds@.len()),
                reachable(start, kinds@.take(d as int), here),
                deep_inv(start, kinds@, found0, d as int, tested_configurations@, solutions@),
                tested_in.subset_of(tested_configurations@),
                found_in.subset_of(solutions@),
                successors_before(here, kind, row as int, col as int).subset_of(
                    if more {
                        tested_configurations@
                    } else {
                        solutions@
                    },
                ),
                forall|b: BoardView|
                    tested_configurations@.contains(b) && !tested_in.contains(b) ==> b.pieces.len()
                        > here.pieces.len(),
            decreases 128 - col,
        {
            let candidate = Piece { row: row as i8, col: col as i8, piece: kind };
            proof {
                lemma_successors_next_square(here, candidate);
            }
            if flat.admits(candidate) {
                let next = board.place(candidate);
                let key = next.canonical_form();
                let ghost tested_before = tested_configurations@;
                let ghost found_before = solutions@;
                proof {
                    assert(step(here, kind, candidate, next@));
                    lemma_reachable_further(start, kinds@, d as int, here, candidate, next@);
                    lemma_step_size(here, kind, candidate, next@);
                }
                if more {
                    if tested_configurations.insert(key) {
                        proof {
                            lemma_deep_enter(
                                start,
                                kinds@,
                                found0,
                                d as int,
                                tested_before,
                                found_before,
                                next@,
                            );
                        }
                        explore(
                            &next,
                            kinds,
                            d + 1,
                            solutions,
                            tested_configurations,
                            Ghost(start),
                            Ghost(found0),
                        );
                        proof {
                            lemma_deep_leave(
                                start,
                                kinds@,
                                found0,
                                d as int,
                                tested_before,
                                found_before,
                                next@,
                                tested_configurations@,
                                solutions@,
                            );
                        }
                    } else {
                        assert(tested_configurations@ =~= tested_before);
                    }
                } else {
                    solutions.insert(key);
                    proof {
                        lemma_deep_found(
                            start,
                            kinds@,
                            found0,
                            d as int,
                            tested_before,
                            found_before,
                            next@,
                        );
                    }
                }
            }
            col += 1;
        }
        proof {
            lemma_successors_next_row(here, kind, row as int, col as int);
        }
        row += 1;
    }
    proof {
        lemma_successors_end(here, kind, row as int);
    }
}

/// Runs the search from `board` for `pieces` to its end, by recursion.
///
/// `tested_configurations` is empty. When the search returns, `solutions`
/// holds, beside what it held before, every board that comes of `board` by
/// placing all the kinds, one after the other, each on a square that is free and
/// safe; `tested_configurations` holds the boards on the way to them. The boards
/// in both are in canonical form. The result is a copy of `solutions`.
pub fn solution(
    board: Board,
    pieces: Vec<ChessPiece>,
    solutions: &mut BoardSet,
    tested_configurations: &mut BoardSet,
) -> (found: BoardSet)
    requires
        old(tested_configurations)@ == Set::<BoardView>::empty(),
    ensures
        final(solutions)@ == old(solutions)@.union(finished(board@, pieces@)),
        final(tested_configurations)@ == passed(board@, pieces@),
        found@ == final(solutions)@,
{
    let ghost start = board@;
    let ghost kinds = pieces@;
    let ghost found0 = solutions@;
    let ghost none = Seq::<SearchTask>::empty();
    if pieces.len() > 0 {
        proof {
            assert(kinds.take(0) =~= Seq::<ChessPiece>::empty());
        }
        explore(&board, &pieces, 0, solutions, tested_configurations, Ghost(start), Ghost(found0));
    }
    proof {
        let tested = tested_configurations@;
        let found = solutions@;
        assert forall|d: int, b: BoardView|
            0 <= d < kinds.len() && #[trigger] reachable(start, kinds.take(d), b) && (d == 0
                || tested.contains(b)) implies on_stack(none, b) || settled(
            kinds,
            d,
            b,
            tested,
            found,
        ) by {
            if d == 0 {
                assert(kinds.take(0) =~= Seq::<ChessPiece>::empty());
                assert(b == start);
            }
        }
        assert(search_inv(start, kinds, found0, none, tested, found));
        lemma_search_ends(start, kinds, found0, tested, found);
    }
    solutions.clone()
}

} // verus!
