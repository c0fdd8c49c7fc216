//! Placements of chess pieces on a board of M × N squares such that no piece
//! attacks another.
//!
//! Given the dimensions of a board and a sequence of piece kinds, [`search`]
//! returns every board that holds one piece of each requested kind, each on a
//! square of its own, with no piece attacking another. Two boards that hold the
//! same pieces are the same solution, in whatever order the pieces were placed;
//! boards that are mirror images or rotations of one another are different
//! solutions.
//!
//! The modules, leaves first:
//!
//! - [`piece`]: the kinds of piece and the squares that each attacks.
//! - [`board`]: a board as a value. Its pieces are kept in one canonical order,
//!   so that boards with the same pieces are equal however they were built.
//! - [`board_set`]: a set of boards, in which the search remembers the boards
//!   it has seen and gathers the ones it has finished.
//! - [`search`]: the search itself, which works through a stack of tasks.
//! - [`placement`]: what a solution is, said without reference to the search,
//!   and the proof that the search finds the solutions and nothing else.
//! - [`persistent`]: boards whose pieces are held in a persistent hash set, and
//!   a search over them by recursion.

pub mod board;
pub mod board_set;
pub mod persistent;
pub mod piece;
pub mod placement;
pub mod search;

pub use board::{Board, BoardView};
pub use board_set::BoardSet;
pub use piece::{ChessPiece, Piece};
pub use search::{search, solution, SearchTask};
