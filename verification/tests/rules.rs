use chess::piece::{axis_distance, kind_reaches};
use chess::{Board, BoardSet, ChessPiece, Piece};

fn at(row: i8, col: i8, piece: ChessPiece) -> Piece {
    Piece { row, col, piece }
}

fn attacked_squares(attacker: Piece) -> Vec<(i8, i8)> {
    let mut squares = Vec::new();
    for row in -2..=12 {
        for col in -2..=12 {
            if attacker.attacks(at(row, col, ChessPiece::Rook)) {
                squares.push((row, col));
            }
        }
    }
    squares
}

#[test]
fn king_attacks_exactly_its_eight_neighbours() {
    let squares = attacked_squares(at(5, 5, ChessPiece::King));
    assert_eq!(
        squares,
        vec![(4, 4), (4, 5), (4, 6), (5, 4), (5, 6), (6, 4), (6, 5), (6, 6)]
    );
}

#[test]
fn knight_attacks_exactly_its_eight_jumps() {
    let squares = attacked_squares(at(5, 5, ChessPiece::Knight));
    assert_eq!(
        squares,
        vec![(3, 4), (3, 6), (4, 3), (4, 7), (6, 3), (6, 7), (7, 4), (7, 6)]
    );
}

#[test]
fn rook_attacks_its_row_and_column() {
    let rook = at(5, 5, ChessPiece::Rook);
    for row in -2..=12 {
        for col in -2..=12 {
            let expected = row == 5 || col == 5;
            assert_eq!(rook.attacks(at(row, col, ChessPiece::King)), expected);
        }
    }
}

#[test]
fn bishop_attacks_its_diagonals() {
    let bishop = at(5, 5, ChessPiece::Bishop);
    for row in -2..=12i8 {
        for col in -2..=12i8 {
            let expected = (row - 5).abs() == (col - 5).abs();
            assert_eq!(bishop.attacks(at(row, col, ChessPiece::King)), expected);
        }
    }
}

#[test]
fn queen_attacks_what_rook_or_bishop_attacks() {
    for row in -2..=12 {
        for col in -2..=12 {
            let target = at(row, col, ChessPiece::Knight);
            let queen = at(5, 5, ChessPiece::Queen).attacks(target);
            let rook = at(5, 5, ChessPiece::Rook).attacks(target);
            let bishop = at(5, 5, ChessPiece::Bishop).attacks(target);
            assert_eq!(queen, rook || bishop);
        }
    }
    assert!(!at(5, 5, ChessPiece::Queen).attacks(at(3, 4, ChessPiece::King)));
}

#[test]
fn own_square_is_attacked_along_lines_only() {
    let here = at(5, 5, ChessPiece::Rook);
    assert!(!at(5, 5, ChessPiece::King).attacks(here));
    assert!(!at(5, 5, ChessPiece::Knight).attacks(here));
    assert!(at(5, 5, ChessPiece::Rook).attacks(here));
    assert!(at(5, 5, ChessPiece::Bishop).attacks(here));
    assert!(at(5, 5, ChessPiece::Queen).attacks(here));
}

#[test]
fn the_kind_of_the_target_plays_no_part() {
    let knight = at(2, 3, ChessPiece::Knight);
    for kind in [
        ChessPiece::Rook,
        ChessPiece::Bishop,
        ChessPiece::Knight,
        ChessPiece::Queen,
        ChessPiece::King,
    ] {
        assert!(knight.attacks(at(4, 4, kind)));
        assert!(!knight.attacks(at(4, 5, kind)));
    }
}

#[test]
fn attack_rules_hold_at_the_ends_of_the_coordinate_range() {
    assert_eq!(axis_distance(-128, 127), 255);
    assert_eq!(axis_distance(127, -128), 255);
    assert_eq!(axis_distance(7, 7), 0);
    assert!(at(-128, -128, ChessPiece::Bishop).attacks(at(127, 127, ChessPiece::King)));
    assert!(!at(-128, -128, ChessPiece::Bishop).attacks(at(127, 126, ChessPiece::King)));
    assert!(at(127, 127, ChessPiece::King).attacks(at(126, 126, ChessPiece::King)));
    assert!(!at(127, 127, ChessPiece::King).attacks(at(-128, -128, ChessPiece::King)));
    assert!(at(127, 127, ChessPiece::Knight).attacks(at(125, 126, ChessPiece::King)));
    assert!(!at(127, 127, ChessPiece::Knight).attacks(at(-127, -128, ChessPiece::King)));
    assert!(at(-128, 0, ChessPiece::Queen).attacks(at(127, 0, ChessPiece::King)));
}

#[test]
fn what_a_kind_reaches_depends_on_the_distances_alone() {
    for dr in 0..5i16 {
        for dc in 0..5i16 {
            assert_eq!(kind_reaches(ChessPiece::Rook, dr, dc), dr == 0 || dc == 0);
            assert_eq!(kind_reaches(ChessPiece::Bishop, dr, dc), dr == dc);
            assert_eq!(kind_reaches(ChessPiece::Queen, dr, dc), dr == 0 || dc == 0 || dr == dc);
            assert_eq!(kind_reaches(ChessPiece::Knight, dr, dc), (dr, dc) == (1, 2) || (dr, dc) == (2, 1));
            assert_eq!(
                kind_reaches(ChessPiece::King, dr, dc),
                (dr, dc) == (0, 1) || (dr, dc) == (1, 0) || (dr, dc) == (1, 1)
            );
        }
    }
}

#[test]
fn knight_moves_and_king_moves_are_the_rules_of_those_kinds() {
    let from = at(5, 5, ChessPiece::Rook);
    assert!(from.knight_moves(at(7, 6, ChessPiece::Rook)));
    assert!(from.knight_moves(at(4, 3, ChessPiece::Rook)));
    assert!(!from.knight_moves(at(5, 5, ChessPiece::Rook)));
    assert!(!from.knight_moves(at(6, 6, ChessPiece::Rook)));
    assert!(from.king_moves(at(6, 6, ChessPiece::Rook)));
    assert!(from.king_moves(at(5, 4, ChessPiece::Rook)));
    assert!(!from.king_moves(at(5, 5, ChessPiece::Rook)));
    assert!(!from.king_moves(at(7, 5, ChessPiece::Rook)));
}

#[test]
fn an_empty_board_holds_nothing() {
    let board = Board::empty(3, 4);
    assert_eq!((board.rows, board.cols), (3, 4));
    assert!(board.pieces.is_empty());
    assert_eq!(board, Board::new(3, 4, Vec::new()));
}

#[test]
fn empty_board_is_safe_for_any_candidate() {
    let board = Board::new(3, 3, Vec::new());
    assert!(board.is_safe(at(1, 1, ChessPiece::Rook)));
    assert!(board.is_safe(at(100, -7, ChessPiece::Queen)));
}

#[test]
fn safety_looks_both_ways() {
    let board = Board::new(8, 8, Vec::new()).place(at(1, 1, ChessPiece::Rook));
    // The knight does not attack the rook, but the rook attacks the knight.
    assert!(!board.is_safe(at(1, 5, ChessPiece::Knight)));
    // The rook does not attack the knight's square, but the knight attacks the rook.
    assert!(!board.is_safe(at(2, 3, ChessPiece::Knight)));
    assert!(board.is_safe(at(3, 4, ChessPiece::Knight)));
    // Safety does not look at the bounds of the board.
    assert!(board.is_safe(at(20, 30, ChessPiece::King)));
}

#[test]
fn a_king_is_safe_where_a_king_stands_but_the_square_is_not_free() {
    let board = Board::new(3, 3, Vec::new()).place(at(2, 2, ChessPiece::King));
    assert!(board.is_safe(at(2, 2, ChessPiece::Knight)));
    assert!(!board.admits(at(2, 2, ChessPiece::Knight)));
    assert!(board.holds(at(2, 2, ChessPiece::King)));
    assert!(!board.holds(at(2, 2, ChessPiece::Knight)));
}

#[test]
fn a_board_admits_what_is_safe_on_a_free_square_of_it() {
    let board = Board::new(3, 4, Vec::new()).place(at(1, 1, ChessPiece::Rook));
    assert!(board.admits(at(2, 3, ChessPiece::King)));
    assert!(board.admits(at(3, 4, ChessPiece::Bishop)));
    // Attacked by the rook.
    assert!(!board.admits(at(1, 4, ChessPiece::King)));
    // Attacks the rook.
    assert!(!board.admits(at(3, 3, ChessPiece::Bishop)));
    assert!(!board.admits(at(2, 3, ChessPiece::Knight)));
    // Not a square of the board.
    assert!(!board.admits(at(4, 2, ChessPiece::King)));
    assert!(!board.admits(at(2, 5, ChessPiece::King)));
    assert!(!board.admits(at(0, 2, ChessPiece::King)));
    assert!(!board.admits(at(2, 0, ChessPiece::King)));
    assert!(!board.admits(at(-2, -2, ChessPiece::King)));
    // Taken.
    assert!(!board.admits(at(1, 1, ChessPiece::Knight)));
    assert!(!board.admits(at(1, 1, ChessPiece::Rook)));
    assert!(!Board::new(0, 0, Vec::new()).admits(at(1, 1, ChessPiece::King)));
}

#[test]
fn placing_keeps_the_pieces_in_order() {
    let board = Board::new(4, 4, Vec::new())
        .place(at(3, 1, ChessPiece::King))
        .place(at(1, 4, ChessPiece::Rook))
        .place(at(1, 2, ChessPiece::Queen))
        .place(at(3, 1, ChessPiece::Bishop))
        .place(at(2, 2, ChessPiece::Knight));
    assert_eq!(board.rows, 4);
    assert_eq!(board.cols, 4);
    assert_eq!(
        board.pieces,
        vec![
            at(1, 2, ChessPiece::Queen),
            at(1, 4, ChessPiece::Rook),
            at(2, 2, ChessPiece::Knight),
            at(3, 1, ChessPiece::Bishop),
            at(3, 1, ChessPiece::King),
        ]
    );
}

#[test]
fn placing_sorts_pieces_that_were_out_of_order() {
    let unordered = vec![at(3, 3, ChessPiece::King), at(1, 1, ChessPiece::King)];
    let board = Board::new(3, 3, unordered.clone());
    assert_eq!(board.pieces, unordered);
    let placed = board.place(at(2, 2, ChessPiece::Rook));
    assert_eq!(
        placed.pieces,
        vec![
            at(1, 1, ChessPiece::King),
            at(2, 2, ChessPiece::Rook),
            at(3, 3, ChessPiece::King),
        ]
    );
    // A piece that is there leaves the board as it is, order and all.
    assert_eq!(board.place(at(1, 1, ChessPiece::King)).pieces, unordered);
}

#[test]
fn placing_twice_is_placing_once() {
    let board = Board::new(5, 5, Vec::new()).place(at(2, 2, ChessPiece::Bishop));
    let candidate = at(4, 1, ChessPiece::Knight);
    let once = board.place(candidate);
    let twice = once.place(candidate);
    assert_eq!(once, twice);
    assert_eq!(twice.pieces.len(), 2);
}

#[test]
fn placing_in_either_order_gives_the_same_board() {
    let first = at(3, 2, ChessPiece::Queen);
    let second = at(1, 3, ChessPiece::King);
    let empty = Board::new(3, 3, Vec::new());
    let one_way = empty.place(first).place(second);
    let other_way = empty.place(second).place(first);
    assert_eq!(one_way, other_way);
    assert_eq!(one_way.pieces, vec![second, first]);
    let mut set = BoardSet::new();
    assert!(set.insert(one_way));
    assert!(!set.insert(other_way));
    assert_eq!(set.len(), 1);
}

#[test]
fn placing_leaves_the_board_it_started_from_alone() {
    let board = Board::new(3, 3, Vec::new());
    let placed = board.place(at(1, 1, ChessPiece::King));
    assert!(board.pieces.is_empty());
    assert_eq!(placed.pieces.len(), 1);
    assert_ne!(board, placed);
}

#[test]
fn boards_differ_by_dimensions_and_by_pieces() {
    let a = Board::new(3, 3, vec![at(1, 1, ChessPiece::King)]);
    assert_eq!(a, a.clone());
    assert_ne!(a, Board::new(3, 4, vec![at(1, 1, ChessPiece::King)]));
    assert_ne!(a, Board::new(4, 3, vec![at(1, 1, ChessPiece::King)]));
    assert_ne!(a, Board::new(3, 3, vec![at(1, 1, ChessPiece::Queen)]));
    assert_ne!(a, Board::new(3, 3, Vec::new()));
    assert_ne!(
        a,
        Board::new(3, 3, vec![at(1, 1, ChessPiece::King), at(3, 3, ChessPiece::King)])
    );
}

#[test]
fn pieces_come_in_the_order_of_row_column_kind() {
    assert!(at(1, 9, ChessPiece::King).comes_before(at(2, 1, ChessPiece::Rook)));
    assert!(!at(2, 1, ChessPiece::Rook).comes_before(at(1, 9, ChessPiece::King)));
    assert!(at(2, 1, ChessPiece::King).comes_before(at(2, 2, ChessPiece::Rook)));
    assert!(at(2, 2, ChessPiece::Rook).comes_before(at(2, 2, ChessPiece::Bishop)));
    assert!(at(2, 2, ChessPiece::Bishop).comes_before(at(2, 2, ChessPiece::Knight)));
    assert!(at(2, 2, ChessPiece::Knight).comes_before(at(2, 2, ChessPiece::Queen)));
    assert!(at(2, 2, ChessPiece::Queen).comes_before(at(2, 2, ChessPiece::King)));
    assert!(!at(2, 2, ChessPiece::King).comes_before(at(2, 2, ChessPiece::Queen)));
    assert!(at(2, 2, ChessPiece::King).comes_before(at(2, 2, ChessPiece::King)));
    // The order is the one that the derived comparison gives.
    assert!(at(2, 2, ChessPiece::Rook) < at(2, 2, ChessPiece::Bishop));
    assert!(at(1, 9, ChessPiece::King) < at(2, 1, ChessPiece::Rook));
}
