use chess::persistent;
use chess::{search, Board, BoardSet, ChessPiece, Piece};

fn at(row: i8, col: i8, piece: ChessPiece) -> Piece {
    Piece { row, col, piece }
}

fn sorted_boards(set: &BoardSet) -> Vec<Vec<Piece>> {
    let mut all: Vec<Vec<Piece>> = set.boards().iter().map(|b| b.pieces.clone()).collect();
    all.sort();
    all
}

#[test]
fn an_empty_persistent_board_holds_nothing() {
    let board = persistent::Board::empty(3, 4);
    assert_eq!((board.m, board.n), (3, 4));
    assert!(board.used_pieces.is_empty());
    assert_eq!(board.canonical_form(), Board::new(3, 4, Vec::new()));
    assert_eq!(board, persistent::Board::new(3, 4, im::HashSet::new()));
}

#[test]
fn placing_on_a_persistent_board_leaves_it_as_it_was() {
    let board = persistent::Board::empty(3, 3);
    let one = board.place(at(2, 2, ChessPiece::King));
    let two = one.place(at(1, 1, ChessPiece::Rook));
    assert_eq!(board.used_pieces.len(), 0);
    assert_eq!(one.used_pieces.len(), 1);
    assert_eq!(two.used_pieces.len(), 2);
    assert!(two.used_pieces.contains(&at(2, 2, ChessPiece::King)));
    assert!(two.used_pieces.contains(&at(1, 1, ChessPiece::Rook)));
    assert!(!one.used_pieces.contains(&at(1, 1, ChessPiece::Rook)));
    assert_eq!((two.m, two.n), (3, 3));
}

#[test]
fn the_canonical_form_lists_the_pieces_in_order() {
    let board = persistent::Board::empty(4, 4)
        .place(at(3, 1, ChessPiece::King))
        .place(at(1, 4, ChessPiece::Rook))
        .place(at(1, 2, ChessPiece::Queen))
        .place(at(3, 1, ChessPiece::Bishop));
    let flat = board.canonical_form();
    assert_eq!((flat.rows, flat.cols), (4, 4));
    assert_eq!(
        flat.pieces,
        vec![
            at(1, 2, ChessPiece::Queen),
            at(1, 4, ChessPiece::Rook),
            at(3, 1, ChessPiece::Bishop),
            at(3, 1, ChessPiece::King),
        ]
    );
    // The same pieces placed on a board that keeps them in a vector.
    let same = Board::new(4, 4, Vec::new())
        .place(at(1, 2, ChessPiece::Queen))
        .place(at(3, 1, ChessPiece::Bishop))
        .place(at(3, 1, ChessPiece::King))
        .place(at(1, 4, ChessPiece::Rook));
    assert_eq!(flat, same);
}

#[test]
fn persistent_boards_are_equal_by_their_pieces() {
    let first = at(3, 2, ChessPiece::Queen);
    let second = at(1, 3, ChessPiece::King);
    let empty = persistent::Board::empty(3, 3);
    let one_way = empty.place(first).place(second);
    let other_way = empty.place(second).place(first);
    assert_eq!(one_way, other_way);
    assert_eq!(one_way.canonical_form(), other_way.canonical_form());
    assert_eq!(one_way.place(first), one_way);
    assert_eq!(one_way.clone(), one_way);
    assert_eq!(one_way.clone().canonical_form().pieces, vec![second, first]);
    assert_ne!(one_way, empty.place(first));
}

#[test]
fn safety_on_a_persistent_board_looks_both_ways() {
    let board = persistent::Board::empty(8, 8).place(at(1, 1, ChessPiece::Rook));
    assert!(persistent::Board::empty(8, 8).is_safe(at(1, 1, ChessPiece::Rook)));
    assert!(!board.clone().is_safe(at(1, 5, ChessPiece::Knight)));
    assert!(!board.clone().is_safe(at(2, 3, ChessPiece::Knight)));
    assert!(board.clone().is_safe(at(3, 4, ChessPiece::Knight)));
    let more = board.place(at(3, 4, ChessPiece::Knight));
    assert!(!more.clone().is_safe(at(5, 5, ChessPiece::King)));
    assert!(more.is_safe(at(6, 6, ChessPiece::King)));
}

#[test]
fn the_recursive_search_finds_what_the_stack_search_finds() {
    let kinds = vec![ChessPiece::King, ChessPiece::King, ChessPiece::Rook];
    let mut solutions = BoardSet::new();
    let mut tested = BoardSet::new();
    let found = persistent::solution(
        persistent::Board::empty(3, 3),
        kinds.clone(),
        &mut solutions,
        &mut tested,
    );
    assert_eq!(found.len(), 4);
    assert_eq!(solutions.len(), 4);
    assert_eq!(tested.len(), 25);
    assert_eq!(sorted_boards(&found), sorted_boards(&search(3, 3, &kinds)));
    assert_eq!(sorted_boards(&found), sorted_boards(&solutions));
}

#[test]
fn the_recursive_search_counts() {
    let count = |m: i8, n: i8, kinds: Vec<ChessPiece>| {
        persistent::solution(
            persistent::Board::empty(m, n),
            kinds,
            &mut BoardSet::new(),
            &mut BoardSet::new(),
        )
        .len()
    };
    assert_eq!(count(3, 3, Vec::new()), 0);
    assert_eq!(count(0, 3, vec![ChessPiece::King]), 0);
    assert_eq!(count(1, 1, vec![ChessPiece::Knight, ChessPiece::King]), 0);
    assert_eq!(count(2, 2, vec![ChessPiece::King]), 4);
    assert_eq!(
        count(
            4,
            4,
            vec![ChessPiece::King, ChessPiece::King, ChessPiece::Queen, ChessPiece::Queen]
        ),
        20
    );
    assert_eq!(count(4, 4, vec![ChessPiece::Queen, ChessPiece::Rook, ChessPiece::Rook]), 116);
    assert_eq!(count(6, 6, vec![ChessPiece::Queen; 6]), 4);
}

#[test]
fn the_recursive_search_adds_to_the_solutions_it_is_given() {
    let other = Board::new(9, 9, vec![at(9, 9, ChessPiece::Queen)]);
    let mut solutions = BoardSet::new();
    solutions.insert(other.clone());
    let start = persistent::Board::empty(3, 3).place(at(1, 1, ChessPiece::King));
    let found = persistent::solution(
        start,
        vec![ChessPiece::King, ChessPiece::Rook],
        &mut solutions,
        &mut BoardSet::new(),
    );
    assert_eq!(found.len(), 3);
    assert!(found.contains(&other));
    assert_eq!(
        sorted_boards(&found),
        vec![
            vec![at(1, 1, ChessPiece::King), at(1, 3, ChessPiece::King), at(3, 2, ChessPiece::Rook)],
            vec![at(1, 1, ChessPiece::King), at(2, 3, ChessPiece::Rook), at(3, 1, ChessPiece::King)],
            vec![at(9, 9, ChessPiece::Queen)],
        ]
    );
}

#[test]
fn a_copy_of_a_set_holds_the_same_boards() {
    let mut set = BoardSet::new();
    set.insert(Board::new(3, 3, vec![at(1, 1, ChessPiece::King)]));
    set.insert(Board::new(3, 3, vec![at(2, 2, ChessPiece::King)]));
    let mut copy = set.clone();
    assert_eq!(copy.len(), 2);
    assert_eq!(copy.boards(), set.boards());
    assert!(!copy.insert(Board::new(3, 3, vec![at(2, 2, ChessPiece::King)])));
    assert!(copy.insert(Board::new(3, 3, vec![at(3, 3, ChessPiece::King)])));
    assert_eq!(copy.len(), 3);
    assert_eq!(set.len(), 2);
}
