//! Piece kinds and the attack rule of each.

use vstd::prelude::*;

verus! {

/// The kinds of chess piece that can be placed.
///
/// The derived order (`Rook < Bishop < Knight < Queen < King`) is the order that
/// the canonical form of a board uses to break ties between pieces on one square.
#[derive(PartialEq, Eq, Structural, Hash, Clone, Copy, PartialOrd, Ord, Debug)]
pub enum ChessPiece {
    Rook,
    Bishop,
    Knight,
    Queen,
    King,
}

/// A piece on a square. Rows and columns count from 1.
#[derive(PartialEq, Eq, Structural, Hash, Clone, Copy, PartialOrd, Ord, Debug)]
pub struct Piece {
    pub row: i8,
    pub col: i8,
    pub piece: ChessPiece,
}

/// The distance between two coordinates along one axis.
pub open spec fn distance(a: i8, b: i8) -> int {
    if a >= b {
        a - b
    } else {
        b - a
    }
}

/// Whether a piece of kind `kind` attacks a square that lies `dr` rows and `dc`
/// columns away from its own. Which way the square lies plays no part.
///
/// A rook attacks along its row and its column, a bishop along its diagonals,
/// a queen along all of these. A knight attacks the squares one step along one
/// axis and two along the other. A king attacks the eight squares around its
/// own. Neither a knight nor a king attacks the square it stands on.
pub open spec fn reaches(kind: ChessPiece, dr: int, dc: int) -> bool {
    match kind {
        ChessPiece::Rook => dr == 0 || dc == 0,
        ChessPiece::Bishop => dr == dc,
        ChessPiece::Knight => (dr == 1 && dc == 2) || (dr == 2 && dc == 1),
        ChessPiece::Queen => dr == 0 || dc == 0 || dr == dc,
        ChessPiece::King => dr <= 1 && dc <= 1 && !(dr == 0 && dc == 0),
    }
}

impl Piece {
    /// The attack rule: whether this piece, by its kind, attacks the square of
    /// `target`. The kind of `target` plays no part.
    pub open spec fn attacks_spec(self, target: Piece) -> bool {
        reaches(self.piece, distance(self.row, target.row), distance(self.col, target.col))
    }

    /// Neither piece attacks the other.
    pub open spec fn at_peace_with(self, other: Piece) -> bool {
        !self.attacks_spec(other) && !other.attacks_spec(self)
    }

    /// A piece of the given kind on this piece's square.
    pub open spec fn of_kind(self, kind: ChessPiece) -> Piece {
        Piece { row: self.row, col: self.col, piece: kind }
    }

    /// The two pieces stand on the same square.
    pub open spec fn same_square(self, other: Piece) -> bool {
        self.row == other.row && self.col == other.col
    }

    /// Whether `chess_piece` stands a knight's move away from this piece.
    pub fn knight_moves(self, chess_piece: Piece) -> (reached: bool)
        ensures
            reached == reaches(
                ChessPiece::Knight,
                distance(self.row, chess_piece.row),
                distance(self.col, chess_piece.col),
            ),
    {
        let dr: i16 = axis_distance(self.row, chess_piece.row);
        let dc: i16 = axis_distance(self.col, chess_piece.col);
        (dr == 1 && dc == 2) || (dr == 2 && dc == 1)
    }

    /// Whether `chess_piece` stands on one of the eight squares around this piece.
    pub fn king_moves(self, chess_piece: Piece) -> (reached: bool)
        ensures
            reached == reaches(
                ChessPiece::King,
                distance(self.row, chess_piece.row),
                distance(self.col, chess_piece.col),
            ),
    {
        let dr: i16 = axis_distance(self.row, chess_piece.row);
        let dc: i16 = axis_distance(self.col, chess_piece.col);
        dr <= 1 && dc <= 1 && !(dr == 0 && dc == 0)
    }

    /// Whether this piece attacks the square of `chess_piece`.
    #[verifier::when_used_as_spec(attacks_spec)]
    pub fn attacks(self, chess_piece: Piece) -> (attacked: bool)
        ensures
            attacked == self.attacks_spec(chess_piece),
    {
        match self.piece {
            ChessPiece::Rook => self.row == chess_piece.row || self.col == chess_piece.col,
            ChessPiece::Bishop => {
                axis_distance(self.row, chess_piece.row) == axis_distance(
                    self.col,
                    chess_piece.col,
                )
            },
            ChessPiece::Knight => self.knight_moves(chess_piece),
            ChessPiece::Queen => {
                self.row == chess_piece.row || self.col == chess_piece.col || axis_distance(
                    self.row,
                    chess_piece.row,
                ) == axis_distance(self.col, chess_piece.col)
            },
            ChessPiece::King => self.king_moves(chess_piece),
        }
    }
}

/// A king attacks the squares at distance 1 from its own, where the distance
/// between two squares is the larger of their distances along the two axes.
pub proof fn lemma_king_attacks_neighbours(king: Piece, target: Piece)
    requires
        king.piece == ChessPiece::King,
    ensures
        king.attacks_spec(target) <==> vstd::math::max(
            distance(king.row, target.row),
            distance(king.col, target.col),
        ) == 1,
{
}

/// A knight attacks the squares that lie one step along one axis and two steps
/// along the other from its own: their two distances add up to 3, and neither
/// is 0.
pub proof fn lemma_knight_attacks_jumps(knight: Piece, target: Piece)
    requires
        knight.piece == ChessPiece::Knight,
    ensures
        knight.attacks_spec(target) <==> distance(knight.row, target.row) + distance(
            knight.col,
            target.col,
        ) == 3 && knight.row != target.row && knight.col != target.col,
{
}

/// A queen attacks what a rook or a bishop on her square attacks.
pub proof fn lemma_queen_combines(queen: Piece, target: Piece)
    requires
        queen.piece == ChessPiece::Queen,
    ensures
        queen.attacks_spec(target) <==> queen.of_kind(ChessPiece::Rook).attacks_spec(target)
            || queen.of_kind(ChessPiece::Bishop).attacks_spec(target),
{
}

/// A king or a knight does not attack the square it stands on; a rook, a bishop
/// and a queen do, by the rule of the line and the diagonal.
pub proof fn lemma_own_square(piece: Piece, target: Piece)
    requires
        piece.same_square(target),
    ensures
        piece.attacks_spec(target) <==> piece.piece != ChessPiece::King && piece.piece
            != ChessPiece::Knight,
{
}

/// Whether a piece of kind `kind` attacks a square that lies `dr` rows and `dc`
/// columns away from its own.
pub fn kind_reaches(kind: ChessPiece, dr: i16, dc: i16) -> (reached: bool)
    ensures
        reached == reaches(kind, dr as int, dc as int),
{
    match kind {
        ChessPiece::Rook => dr == 0 || dc == 0,
        ChessPiece::Bishop => dr == dc,
        ChessPiece::Knight => (dr == 1 && dc == 2) || (dr == 2 && dc == 1),
        ChessPiece::Queen => dr == 0 || dc == 0 || dr == dc,
        ChessPiece::King => dr <= 1 && dc <= 1 && !(dr == 0 && dc == 0),
    }
}

/// The distance between two coordinates, computed in a type wide enough for the
/// difference of any two `i8` values.
pub fn axis_distance(a: i8, b: i8) -> (d: i16)
    ensures
        d == distance(a, b),
{
    let wide_a: i16 = a as i16;
    let wide_b: i16 = b as i16;
    if wide_a >= wide_b {
        wide_a - wide_b
    } else {
        wide_b - wide_a
    }
}

} // verus!
