//! A board as a value: its dimensions and the pieces placed on it.
//!
//! The pieces of a board form a set. To make two boards with the same pieces
//! equal as values, [`Board::place`] keeps them sorted by row, then column, then
//! kind: the canonical form of the set.

use crate::piece::{axis_distance, kind_reaches, ChessPiece, Piece};
use vstd::prelude::*;
use vstd::relations::{sorted_by, total_ordering};
use vstd::seq_lib::lemma_sorted_unique;

verus! {

/// The position of a kind in the order of kinds.
pub open spec fn kind_rank(kind: ChessPiece) -> int {
    match kind {
        ChessPiece::Rook => 0,
        ChessPiece::Bishop => 1,
        ChessPiece::Knight => 2,
        ChessPiece::Queen => 3,
        ChessPiece::King => 4,
    }
}

/// `a` comes no later than `b`: by row, then by column, then by kind.
pub open spec fn piece_le(a: Piece, b: Piece) -> bool {
    a.row < b.row || (a.row == b.row && (a.col < b.col || (a.col == b.col && kind_rank(a.piece)
        <= kind_rank(b.piece))))
}

/// The order of pieces as a relation.
pub open spec fn piece_order() -> spec_fn(Piece, Piece) -> bool {
    |a: Piece, b: Piece| piece_le(a, b)
}

/// The order of pieces is total: any two pieces compare, and two pieces that
/// compare both ways are the same piece.
pub proof fn lemma_piece_order_total()
    ensures
        total_ordering(piece_order()),
{
    let r = piece_order();
    assert forall|x: Piece, y: Piece| #[trigger] r(x, y) && #[trigger] r(y, x) implies x == y by {
        assert(kind_rank(x.piece) == kind_rank(y.piece));
    }
    assert forall|x: Piece, y: Piece, z: Piece| #[trigger] r(x, y) && #[trigger] r(y, z) implies r(
        x,
        z,
    ) by {}
}

/// The pieces stand in order; one may occur more than once.
pub open spec fn in_order(pieces: Seq<Piece>) -> bool {
    forall|i: int, j: int|
        0 <= i < j < pieces.len() ==> piece_le(#[trigger] pieces[i], #[trigger] pieces[j])
}

/// To stand in order is to be sorted by the order of pieces.
pub proof fn lemma_in_order(pieces: Seq<Piece>)
    ensures
        in_order(pieces) == sorted_by(pieces, piece_order()),
{
    let r = piece_order();
    if in_order(pieces) {
        assert forall|i: int, j: int| 0 <= i < j < pieces.len() implies #[trigger] r(
            pieces[i],
            pieces[j],
        ) by {
            assert(piece_le(pieces[i], pieces[j]));
        }
    }
    if sorted_by(pieces, r) {
        assert forall|i: int, j: int| 0 <= i < j < pieces.len() implies piece_le(
            #[trigger] pieces[i],
            #[trigger] pieces[j],
        ) by {
            assert(r(pieces[i], pieces[j]));
        }
    }
}

/// What a [`Board`] holds, as mathematical values.
pub struct BoardView {
    pub rows: i8,
    pub cols: i8,
    pub pieces: Seq<Piece>,
}

impl BoardView {
    /// The board of the given dimensions with no piece on it.
    pub open spec fn empty(rows: i8, cols: i8) -> BoardView {
        BoardView { rows, cols, pieces: Seq::empty() }
    }

    /// The square lies within the board.
    pub open spec fn has_square(self, row: i8, col: i8) -> bool {
        1 <= row <= self.rows && 1 <= col <= self.cols
    }

    /// Some piece of the board stands on the square.
    pub open spec fn occupied(self, row: i8, col: i8) -> bool {
        exists|i: int|
            0 <= i < self.pieces.len() && (#[trigger] self.pieces[i]).row == row
                && self.pieces[i].col == col
    }

    /// No piece of the board attacks `candidate`, and `candidate` attacks none of
    /// them.
    pub open spec fn is_safe(self, candidate: Piece) -> bool {
        forall|i: int|
            0 <= i < self.pieces.len() ==> (#[trigger] self.pieces[i]).at_peace_with(candidate)
    }

    /// `candidate` can be added: its square lies within the board, is free, and
    /// is safe.
    pub open spec fn admits(self, candidate: Piece) -> bool {
        &&& self.has_square(candidate.row, candidate.col)
        &&& !self.occupied(candidate.row, candidate.col)
        &&& self.is_safe(candidate)
    }

    /// The board with `candidate` added. A piece that is already there is not
    /// added again; otherwise all pieces are brought into order.
    pub open spec fn place(self, candidate: Piece) -> BoardView {
        if self.pieces.contains(candidate) {
            self
        } else {
            BoardView {
                rows: self.rows,
                cols: self.cols,
                pieces: self.pieces.push(candidate).sort_by(piece_order()),
            }
        }
    }

    /// The pieces stand in order and none occurs twice.
    pub open spec fn is_canonical(self) -> bool {
        forall|i: int, j: int|
            0 <= i < j < self.pieces.len() ==> piece_le(
                #[trigger] self.pieces[i],
                #[trigger] self.pieces[j],
            ) && self.pieces[i] != self.pieces[j]
    }

    /// Every piece stands on a square of the board.
    pub open spec fn all_on_board(self) -> bool {
        forall|i: int|
            0 <= i < self.pieces.len() ==> self.has_square(
                (#[trigger] self.pieces[i]).row,
                self.pieces[i].col,
            )
    }

    /// No two pieces stand on one square.
    pub open spec fn squares_distinct(self) -> bool {
        forall|i: int, j: int|
            0 <= i < j < self.pieces.len() ==> !(#[trigger] self.pieces[i]).same_square(
                #[trigger] self.pieces[j],
            )
    }

    /// The board is what a board is meant to be: its pieces stand in canonical
    /// order, each on a square of the board, no two on one square.
    pub open spec fn is_valid(self) -> bool {
        self.is_canonical() && self.all_on_board() && self.squares_distinct()
    }

    /// No piece of the board attacks another.
    pub open spec fn is_peaceful(self) -> bool {
        forall|i: int, j: int|
            0 <= i < j < self.pieces.len() ==> (#[trigger] self.pieces[i]).at_peace_with(
                #[trigger] self.pieces[j],
            )
    }

    /// Placing a piece that is not there yields the same pieces and the new one,
    /// in order. Placing one that is there changes nothing.
    pub proof fn lemma_place(self, candidate: Piece)
        ensures
            self.place(candidate).rows == self.rows,
            self.place(candidate).cols == self.cols,
            self.place(candidate).pieces.contains(candidate),
            self.pieces.contains(candidate) ==> self.place(candidate) == self,
            !self.pieces.contains(candidate) ==> {
                &&& self.place(candidate).pieces.to_multiset() == self.pieces.to_multiset().insert(
                    candidate,
                )
                &&& self.place(candidate).pieces.len() == self.pieces.len() + 1
                &&& in_order(self.place(candidate).pieces)
            },
            forall|p: Piece| #[trigger]
                self.place(candidate).pieces.contains(p) <==> (p == candidate
                    || self.pieces.contains(p)),
    {
        broadcast use vstd::seq_lib::group_to_multiset_ensures;

        if !self.pieces.contains(candidate) {
            let extended = self.pieces.push(candidate);
            let placed = self.place(candidate).pieces;
            lemma_piece_order_total();
            lemma_in_order(placed);
            extended.lemma_sort_by_ensures(piece_order());
            assert(extended.to_multiset() == self.pieces.to_multiset().insert(candidate));
            assert(placed.to_multiset() == extended.to_multiset());
            assert(placed.len() == placed.to_multiset().len());
            assert(extended.len() == extended.to_multiset().len());
            assert(placed.to_multiset().count(candidate) > 0);
            assert forall|p: Piece| #[trigger]
                placed.contains(p) <==> (p == candidate || self.pieces.contains(p)) by {
                assert(placed.contains(p) <==> placed.to_multiset().count(p) > 0);
                assert(self.pieces.contains(p) <==> self.pieces.to_multiset().count(p) > 0);
            }
        }
    }
}

/// In a canonical board every piece occurs once.
pub(crate) proof fn lemma_canonical_counts(board: BoardView)
    requires
        board.is_canonical(),
    ensures
        board.pieces.no_duplicates(),
        in_order(board.pieces),
        forall|p: Piece| #[trigger]
            board.pieces.to_multiset().count(p) == if board.pieces.contains(p) {
                1nat
            } else {
                0nat
            },
{
    broadcast use vstd::seq_lib::group_to_multiset_ensures;

    assert forall|i: int, j: int|
        0 <= i < board.pieces.len() && 0 <= j < board.pieces.len() && i != j implies board.pieces[i]
        != board.pieces[j] by {
        if i < j {
            assert(piece_le(board.pieces[i], board.pieces[j]));
        } else {
            assert(piece_le(board.pieces[j], board.pieces[i]));
        }
    }
    board.pieces.lemma_multiset_has_no_duplicates();
    assert forall|p: Piece| #[trigger]
        board.pieces.to_multiset().count(p) == if board.pieces.contains(p) {
            1nat
        } else {
            0nat
        } by {
        assert(board.pieces.contains(p) <==> board.pieces.to_multiset().count(p) > 0);
    }
}

/// Pieces that stand in order, each once, make a canonical board.
proof fn lemma_canonical_from_counts(board: BoardView)
    requires
        in_order(board.pieces),
        forall|p: Piece| #[trigger] board.pieces.to_multiset().count(p) <= 1,
    ensures
        board.is_canonical(),
{
    board.pieces.lemma_multiset_has_no_duplicates_conv();
}

/// A canonical board stays canonical when a piece is placed on it.
pub proof fn lemma_place_keeps_canonical(board: BoardView, candidate: Piece)
    requires
        board.is_canonical(),
    ensures
        board.place(candidate).is_canonical(),
{
    broadcast use vstd::seq_lib::group_to_multiset_ensures;

    board.lemma_place(candidate);
    if !board.pieces.contains(candidate) {
        lemma_canonical_counts(board);
        let placed = board.place(candidate);
        assert forall|p: Piece| #[trigger] placed.pieces.to_multiset().count(p) <= 1 by {
            assert(board.pieces.to_multiset().count(p) == if board.pieces.contains(p) {
                1nat
            } else {
                0nat
            });
        }
        lemma_canonical_from_counts(placed);
    }
}

/// The canonical form is unique: two canonical boards of the same dimensions
/// that hold the same set of pieces are the same board.
pub proof fn lemma_canonical_unique(a: BoardView, b: BoardView)
    requires
        a.is_canonical(),
        b.is_canonical(),
        a.rows == b.rows,
        a.cols == b.cols,
        a.pieces.to_set() == b.pieces.to_set(),
    ensures
        a == b,
{
    lemma_canonical_counts(a);
    lemma_canonical_counts(b);
    assert forall|p: Piece| a.pieces.to_multiset().count(p) == b.pieces.to_multiset().count(p) by {
        assert(a.pieces.contains(p) == a.pieces.to_set().contains(p));
        assert(b.pieces.contains(p) == b.pieces.to_set().contains(p));
        assert(a.pieces.to_multiset().count(p) == if a.pieces.contains(p) {
            1nat
        } else {
            0nat
        });
        assert(b.pieces.to_multiset().count(p) == if b.pieces.contains(p) {
            1nat
        } else {
            0nat
        });
    }
    assert(a.pieces.to_multiset() =~= b.pieces.to_multiset());
    lemma_piece_order_total();
    lemma_in_order(a.pieces);
    lemma_in_order(b.pieces);
    lemma_sorted_unique(a.pieces, b.pieces, piece_order());
}

/// A valid board stays valid when a piece is placed on a free square of it.
pub proof fn lemma_place_keeps_valid(board: BoardView, candidate: Piece)
    requires
        board.is_valid(),
        board.has_square(candidate.row, candidate.col),
        !board.occupied(candidate.row, candidate.col),
    ensures
        board.place(candidate).is_valid(),
{
    let placed = board.place(candidate);
    board.lemma_place(candidate);
    lemma_place_keeps_canonical(board, candidate);
    assert forall|i: int| 0 <= i < placed.pieces.len() implies placed.has_square(
        (#[trigger] placed.pieces[i]).row,
        placed.pieces[i].col,
    ) by {
        let p = placed.pieces[i];
        assert(placed.pieces.contains(p));
        if p != candidate {
            let a = choose|a: int| 0 <= a < board.pieces.len() && board.pieces[a] == p;
            assert(board.has_square(board.pieces[a].row, board.pieces[a].col));
        }
    }
    assert forall|i: int, j: int| 0 <= i < j < placed.pieces.len() implies !(
    #[trigger] placed.pieces[i]).same_square(#[trigger] placed.pieces[j]) by {
        let p = placed.pieces[i];
        let q = placed.pieces[j];
        assert(placed.pieces.contains(p) && placed.pieces.contains(q));
        assert(p != q);
        if p != candidate && q != candidate {
            let a = choose|a: int| 0 <= a < board.pieces.len() && board.pieces[a] == p;
            let b = choose|b: int| 0 <= b < board.pieces.len() && board.pieces[b] == q;
            if a < b {
                assert(!board.pieces[a].same_square(board.pieces[b]));
            } else {
                assert(!board.pieces[b].same_square(board.pieces[a]));
            }
        } else if p != candidate {
            let a = choose|a: int| 0 <= a < board.pieces.len() && board.pieces[a] == p;
            assert(!(board.pieces[a].row == candidate.row && board.pieces[a].col == candidate.col));
        } else {
            let b = choose|b: int| 0 <= b < board.pieces.len() && board.pieces[b] == q;
            assert(!(board.pieces[b].row == candidate.row && board.pieces[b].col == candidate.col));
        }
    }
}

/// A canonical board on which no piece attacks another stays so when a piece
/// is placed that is safe on it.
pub proof fn lemma_place_keeps_peace(board: BoardView, candidate: Piece)
    requires
        board.is_canonical(),
        board.is_peaceful(),
        board.is_safe(candidate),
    ensures
        board.place(candidate).is_peaceful(),
{
    let placed = board.place(candidate);
    board.lemma_place(candidate);
    lemma_place_keeps_canonical(board, candidate);
    assert forall|i: int, j: int| 0 <= i < j < placed.pieces.len() implies (
    #[trigger] placed.pieces[i]).at_peace_with(#[trigger] placed.pieces[j]) by {
        let p = placed.pieces[i];
        let q = placed.pieces[j];
        assert(placed.pieces.contains(p) && placed.pieces.contains(q));
        assert(p != q);
        if p != candidate && q != candidate {
            let a = choose|a: int| 0 <= a < board.pieces.len() && board.pieces[a] == p;
            let b = choose|b: int| 0 <= b < board.pieces.len() && board.pieces[b] == q;
            if a < b {
                assert(board.pieces[a].at_peace_with(board.pieces[b]));
            } else {
                assert(board.pieces[b].at_peace_with(board.pieces[a]));
            }
        } else if p != candidate {
            let a = choose|a: int| 0 <= a < board.pieces.len() && board.pieces[a] == p;
            assert(board.pieces[a].at_peace_with(candidate));
        } else {
            let b = choose|b: int| 0 <= b < board.pieces.len() && board.pieces[b] == q;
            assert(board.pieces[b].at_peace_with(candidate));
        }
    }
}

/// Placing a piece a second time changes nothing.
pub proof fn lemma_place_idempotent(board: BoardView, candidate: Piece)
    ensures
        board.place(candidate).place(candidate) == board.place(candidate),
{
    board.lemma_place(candidate);
}

/// The order in which two pieces are placed does not show in the board.
pub proof fn lemma_place_commutes(board: BoardView, first: Piece, second: Piece)
    ensures
        board.place(first).place(second) == board.place(second).place(first),
{
    let a = board.place(first);
    let b = board.place(second);
    board.lemma_place(first);
    board.lemma_place(second);
    a.lemma_place(second);
    b.lemma_place(first);
    if first != second && !board.pieces.contains(first) && !board.pieces.contains(second) {
        let ab = a.place(second).pieces;
        let ba = b.place(first).pieces;
        assert(!a.pieces.contains(second));
        assert(!b.pieces.contains(first));
        assert(ab.to_multiset() =~= ba.to_multiset());
        lemma_piece_order_total();
        lemma_in_order(ab);
        lemma_in_order(ba);
        lemma_sorted_unique(ab, ba, piece_order());
    }
}

impl Piece {
    /// Whether this piece comes no later than `other` in the order of pieces.
    pub fn comes_before(self, other: Piece) -> (le: bool)
        ensures
            le == piece_le(self, other),
    {
        if self.row != other.row {
            self.row < other.row
        } else if self.col != other.col {
            self.col < other.col
        } else {
            rank(self.piece) <= rank(other.piece)
        }
    }
}

/// The position of a kind in the order of kinds.
pub fn rank(kind: ChessPiece) -> (r: u8)
    ensures
        r == kind_rank(kind),
{
    match kind {
        ChessPiece::Rook => 0,
        ChessPiece::Bishop => 1,
        ChessPiece::Knight => 2,
        ChessPiece::Queen => 3,
        ChessPiece::King => 4,
    }
}

/// A board of `rows` × `cols` squares and the pieces placed on it.
#[derive(Eq, Hash, Debug, PartialOrd)]
pub struct Board {
    pub rows: i8,
    pub cols: i8,
    pub pieces: Vec<Piece>,
}

impl View for Board {
    type V = BoardView;

    open spec fn view(&self) -> BoardView {
        BoardView { rows: self.rows, cols: self.cols, pieces: self.pieces@ }
    }
}

impl Clone for Board {
    fn clone(&self) -> (copy: Self)
        ensures
            copy@ == self@,
    {
        Board { rows: self.rows, cols: self.cols, pieces: copy_pieces(&self.pieces) }
    }
}

impl PartialEq for Board {
    /// Two boards are equal when they have the same dimensions and hold the same
    /// pieces in the same order.
    fn eq(&self, other: &Board) -> (equal: bool) {
        if self.rows != other.rows || self.cols != other.cols || self.pieces.len()
            != other.pieces.len() {
            return false;
        }
        let mut i: usize = 0;
        while i < self.pieces.len()
            invariant
                i <= self.pieces.len(),
                self.pieces.len() == other.pieces.len(),
                forall|k: int| 0 <= k < i ==> self.pieces[k] == other.pieces[k],
            decreases self.pieces.len() - i,
        {
            if self.pieces[i] != other.pieces[i] {
                return false;
            }
            i += 1;
        }
        assert(self.pieces@ =~= other.pieces@);
        true
    }
}

impl vstd::std_specs::cmp::PartialEqSpecImpl for Board {
    open spec fn obeys_eq_spec() -> bool {
        true
    }

    open spec fn eq_spec(&self, other: &Board) -> bool {
        self@ == other@
    }
}

impl Board {
    /// A board with the given dimensions and pieces.
    pub fn new(rows: i8, cols: i8, used_pieces: Vec<Piece>) -> (board: Board)
        ensures
            board.rows == rows,
            board.cols == cols,
            board.pieces == used_pieces,
            board@ == (BoardView { rows, cols, pieces: used_pieces@ }),
    {
        Board { rows, cols, pieces: used_pieces }
    }

    /// A board with the given dimensions and no piece on it.
    pub fn empty(rows: i8, cols: i8) -> (board: Board)
        ensures
            board@ == BoardView::empty(rows, cols),
            board@.is_valid(),
            board@.is_peaceful(),
    {
        Board { rows, cols, pieces: Vec::new() }
    }

    /// Whether `chess_piece` neither attacks a piece of the board nor is attacked
    /// by one. The bounds of the board play no part.
    pub fn is_safe(&self, chess_piece: Piece) -> (safe: bool)
        ensures
            safe == self@.is_safe(chess_piece),
    {
        let mut i: usize = 0;
        while i < self.pieces.len()
            invariant
                i <= self.pieces.len(),
                forall|k: int| 0 <= k < i ==> (#[trigger] self.pieces[k]).at_peace_with(chess_piece),
            decreases self.pieces.len() - i,
        {
            let piece = self.pieces[i];
            if piece.attacks(chess_piece) || chess_piece.attacks(piece) {
                assert(!self@.pieces[i as int].at_peace_with(chess_piece));
                return false;
            }
            i += 1;
        }
        true
    }

    /// Whether `candidate` can be added: whether its square lies within the
    /// board, is free, and is safe.
    pub fn admits(&self, candidate: Piece) -> (admitted: bool)
        ensures
            admitted == self@.admits(candidate),
    {
        if candidate.row < 1 || candidate.row > self.rows || candidate.col < 1 || candidate.col
            > self.cols {
            return false;
        }
        let mut i: usize = 0;
        while i < self.pieces.len()
            invariant
                i <= self.pieces.len(),
                forall|k: int|
                    0 <= k < i ==> !(#[trigger] self.pieces[k]).same_square(candidate)
                        && self.pieces[k].at_peace_with(candidate),
            decreases self.pieces.len() - i,
        {
            let piece = self.pieces[i];
            let dr = axis_distance(piece.row, candidate.row);
            let dc = axis_distance(piece.col, candidate.col);
            if (dr == 0 && dc == 0) || kind_reaches(piece.piece, dr, dc) || kind_reaches(
                candidate.piece,
                dr,
                dc,
            ) {
                proof {
                    let at = self@.pieces[i as int];
                    if dr == 0 && dc == 0 {
                        assert(at.row == candidate.row && at.col == candidate.col);
                    } else {
                        assert(!at.at_peace_with(candidate));
                    }
                }
                return false;
            }
            i += 1;
        }
        proof {
            assert forall|k: int| 0 <= k < self@.pieces.len() implies !((
            #[trigger] self@.pieces[k]).row == candidate.row && self@.pieces[k].col
                == candidate.col) by {
                assert(!self.pieces[k].same_square(candidate));
            }
        }
        true
    }

    /// Whether the board holds `chess_piece`: the same kind on the same square.
    pub fn holds(&self, chess_piece: Piece) -> (held: bool)
        ensures
            held == self@.pieces.contains(chess_piece),
    {
        let mut i: usize = 0;
        while i < self.pieces.len()
            invariant
                i <= self.pieces.len(),
                forall|k: int| 0 <= k < i ==> self.pieces[k] != chess_piece,
            decreases self.pieces.len() - i,
        {
            if self.pieces[i] == chess_piece {
                return true;
            }
            i += 1;
        }
        false
    }

    /// The board with `chess_piece` added, its pieces in order. A piece that the
    /// board already holds is not added again. Whether the placement is safe is
    /// not checked.
    pub fn place(&self, chess_piece: Piece) -> (placed: Board)
        ensures
            placed@ == self@.place(chess_piece),
            placed.rows == self.rows,
            placed.cols == self.cols,
            self@.pieces.contains(chess_piece) ==> placed@.pieces == self@.pieces,
            !self@.pieces.contains(chess_piece) ==> in_order(placed@.pieces)
                && placed@.pieces.to_multiset() == self@.pieces.to_multiset().insert(chess_piece),
            self@.is_valid() && self@.admits(chess_piece) ==> placed@.is_valid(),
            self@.is_valid() && self@.is_peaceful() && self@.admits(chess_piece)
                ==> placed@.is_peaceful(),
    {
        proof {
            self@.lemma_place(chess_piece);
            if self@.is_valid() && self@.admits(chess_piece) {
                lemma_place_keeps_valid(self@, chess_piece);
                if self@.is_peaceful() {
                    lemma_place_keeps_peace(self@, chess_piece);
                }
            }
        }
        if self.holds(chess_piece) {
            self.clone()
        } else {
            Board { rows: self.rows, cols: self.cols, pieces: sorted_with(&self.pieces, chess_piece) }
        }
    }
}

/// A copy of the pieces, in the same order.
fn copy_pieces(pieces: &Vec<Piece>) -> (copy: Vec<Piece>)
    ensures
        copy@ == pieces@,
{
    let mut copy: Vec<Piece> = Vec::with_capacity(pieces.len());
    let mut i: usize = 0;
    while i < pieces.len()
        invariant
            i <= pieces.len(),
            copy@ == pieces@.subrange(0, i as int),
        decreases pieces.len() - i,
    {
        copy.push(pieces[i]);
        assert(copy@ =~= pieces@.subrange(0, i + 1));
        i += 1;
    }
    assert(pieces@.subrange(0, pieces.len() as int) =~= pieces@);
    copy
}

/// Adds `next` to pieces that stand in order, behind every piece that comes no
/// later than it.
fn insert_in_order(sorted: &mut Vec<Piece>, next: Piece)
    requires
        in_order(old(sorted)@),
    ensures
        in_order(final(sorted)@),
        final(sorted)@.to_multiset() == old(sorted)@.to_multiset().insert(next),
{
    let mut at: usize = sorted.len();
    while at > 0 && !sorted[at - 1].comes_before(next)
        invariant
            at <= sorted.len(),
            forall|k: int| at <= k < sorted.len() ==> piece_le(next, #[trigger] sorted[k]),
        decreases at,
    {
        at -= 1;
    }
    let ghost before = sorted@;
    sorted.insert(at, next);
    proof {
        vstd::seq_lib::to_multiset_insert(before, at as int, next);
        assert forall|a: int, b: int| 0 <= a < b < sorted@.len() implies piece_le(
            #[trigger] sorted@[a],
            #[trigger] sorted@[b],
        ) by {
            if b < at {
                assert(piece_le(before[a], before[b]));
            } else if b == at {
                if at > 0 {
                    assert(piece_le(before[at - 1], next));
                    if a < at - 1 {
                        assert(piece_le(before[a], before[at - 1]));
                    }
                }
            } else if a < at {
                assert(piece_le(before[a], before[b - 1]));
            } else if a == at {
                assert(piece_le(next, before[b - 1]));
            } else {
                assert(piece_le(before[a - 1], before[b - 1]));
            }
        }
    }
}

/// The pieces in order.
pub(crate) fn sorted_copy(pieces: &Vec<Piece>) -> (sorted: Vec<Piece>)
    ensures
        sorted@ == pieces@.sort_by(piece_order()),
{
    let mut sorted: Vec<Piece> = Vec::with_capacity(pieces.len());
    let mut i: usize = 0;
    assert(sorted@ =~= pieces@.subrange(0, 0));
    while i < pieces.len()
        invariant
            i <= pieces.len(),
            in_order(sorted@),
            sorted@.to_multiset() == pieces@.subrange(0, i as int).to_multiset(),
        decreases pieces.len() - i,
    {
        insert_in_order(&mut sorted, pieces[i]);
        proof {
            assert(pieces@.subrange(0, i + 1) =~= pieces@.subrange(0, i as int).push(
                pieces[i as int],
            ));
            vstd::seq_lib::to_multiset_build(pieces@.subrange(0, i as int), pieces[i as int]);
        }
        i += 1;
    }
    proof {
        lemma_piece_order_total();
        lemma_in_order(sorted@);
        assert(pieces@.subrange(0, pieces.len() as int) =~= pieces@);
        pieces@.lemma_sort_by_ensures(piece_order());
        lemma_sorted_unique(sorted@, pieces@.sort_by(piece_order()), piece_order());
    }
    sorted
}

/// The pieces together with `extra`, in order.
fn sorted_with(pieces: &Vec<Piece>, extra: Piece) -> (sorted: Vec<Piece>)
    ensures
        sorted@ == pieces@.push(extra).sort_by(piece_order()),
{
    let ghost all = pieces@.push(extra);
    let mut sorted: Vec<Piece> = Vec::with_capacity(pieces.len().saturating_add(1));
    let mut i: usize = 0;
    assert(sorted@ =~= pieces@.subrange(0, 0));
    while i < pieces.len()
        invariant
            i <= pieces.len(),
            in_order(sorted@),
            sorted@.to_multiset() == pieces@.subrange(0, i as int).to_multiset(),
        decreases pieces.len() - i,
    {
        insert_in_order(&mut sorted, pieces[i]);
        proof {
            assert(pieces@.subrange(0, i + 1) =~= pieces@.subrange(0, i as int).push(
                pieces[i as int],
            ));
            vstd::seq_lib::to_multiset_build(pieces@.subrange(0, i as int), pieces[i as int]);
        }
        i += 1;
    }
    insert_in_order(&mut sorted, extra);
    proof {
        lemma_piece_order_total();
        lemma_in_order(sorted@);
        assert(pieces@.subrange(0, pieces.len() as int) =~= pieces@);
        vstd::seq_lib::to_multiset_build(pieces@, extra);
        all.lemma_sort_by_ensures(piece_order());
        lemma_sorted_unique(sorted@, all.sort_by(piece_order()), piece_order());
    }
    sorted
}

} // verus!
