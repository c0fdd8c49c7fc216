use chess::{Board, ChessPiece, Piece};
use std::collections::HashSet;

#[test]
fn test_same_board() {
    let piece_1 = Piece {
        row: 5,
        col: 6,
        piece: ChessPiece::King,
    };
    let piece_2 = Piece {
        row: 3,
        col: 4,
        piece: ChessPiece::King,
    };
    let piece_3 = Piece {
        row: 3,
        col: 3,
        piece: ChessPiece::King,
    };
    let piece_4 = Piece {
        row: 3,
        col: 3,
        piece: ChessPiece::King,
    };
    let board_a = Board {
        rows: 3,
        cols: 3,
        pieces: Vec::new(),
    };
    let board_b = Board {
        rows: 3,
        cols: 3,
        pieces: Vec::new(),
    };
    let new_board_a_1 = board_a.place(piece_1);
    let new_board_b_1 = board_b.place(piece_1);
    assert_eq!(new_board_a_1, new_board_b_1);

    let mut hashset_1 = HashSet::new();
    hashset_1.insert(new_board_a_1);
    assert!(hashset_1.contains(&new_board_b_1));

    let new_board_a_2 = board_a.place(piece_3);
    let new_board_b_2 = board_b.place(piece_4);
    assert_eq!(new_board_a_2, new_board_b_2);

    let new_board_a_3 = new_board_a_2.place(piece_2);
    let new_board_b_3 = new_board_b_2.place(piece_3);
    assert_ne!(new_board_a_3, new_board_b_3);

    let mut hashset_2 = HashSet::new();
    hashset_2.insert(new_board_a_2);
    assert!(hashset_2.contains(&new_board_b_2));
}
