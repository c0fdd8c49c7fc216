//! A set of boards: the collection in which the search remembers the boards it
//! has seen and gathers the boards it has finished.
//!
//! The boards are kept in the order in which they arrived. A hash map from the
//! fingerprint of a board to the latest board with that fingerprint, and a link
//! from each board to the one before it with the same fingerprint, find a board
//! again without looking at the others. The fingerprint decides only where a
//! board is looked for: that the set holds no board twice, and misses none, is
//! proved whatever the fingerprints are.

use crate::board::{kind_rank, rank, Board, BoardView};
use crate::piece::Piece;
use std::collections::HashMap;
use vstd::prelude::*;

verus! {

broadcast use vstd::std_specs::hash::group_hash_axioms;

/// The value from which a fingerprint starts.
pub const FINGERPRINT_START: u64 = 14695981039346656037;

/// The odd number by which each step of a fingerprint multiplies.
pub const FINGERPRINT_FACTOR: u64 = 1099511628211;

/// One step of the fingerprint: the running value times a fixed odd number,
/// plus the next word, within 64 bits.
pub open spec fn mix(acc: u64, word: u64) -> u64 {
    ((acc * FINGERPRINT_FACTOR + word) % 0x1_0000_0000_0000_0000) as u64
}

/// A coordinate as a number from 0 to 255.
pub open spec fn coordinate_code(c: i8) -> u64 {
    (c + 128) as u64
}

/// A piece as a number: row, column and kind side by side.
pub open spec fn piece_code(p: Piece) -> u64 {
    (coordinate_code(p.row) * 2048 + coordinate_code(p.col) * 8 + kind_rank(p.piece)) as u64
}

/// The fingerprint after the dimensions and the given pieces have gone in.
pub open spec fn fingerprint_through(rows: i8, cols: i8, pieces: Seq<Piece>) -> u64
    decreases pieces.len(),
{
    if pieces.len() == 0 {
        mix(mix(FINGERPRINT_START, coordinate_code(rows)), coordinate_code(cols))
    } else {
        mix(fingerprint_through(rows, cols, pieces.drop_last()), piece_code(pieces.last()))
    }
}

/// The fingerprint of a board. Equal boards have equal fingerprints; unequal
/// boards mostly have unequal ones.
pub open spec fn fingerprint(board: BoardView) -> u64 {
    fingerprint_through(board.rows, board.cols, board.pieces)
}

fn mix_words(acc: u64, word: u64) -> (mixed: u64)
    ensures
        mixed == mix(acc, word),
{
    let wide: u128 = (acc as u128) * (FINGERPRINT_FACTOR as u128) + (word as u128);
    (wide % 0x1_0000_0000_0000_0000u128) as u64
}

fn code_of_coordinate(c: i8) -> (code: u64)
    ensures
        code == coordinate_code(c),
{
    (c as i16 + 128) as u64
}

fn code_of_piece(p: Piece) -> (code: u64)
    ensures
        code == piece_code(p),
{
    code_of_coordinate(p.row) * 2048 + code_of_coordinate(p.col) * 8 + rank(p.piece) as u64
}

/// Computes the fingerprint of a board.
pub fn fingerprint_of(board: &Board) -> (print: u64)
    ensures
        print == fingerprint(board@),
{
    let mut print: u64 = mix_words(
        mix_words(FINGERPRINT_START, code_of_coordinate(board.rows)),
        code_of_coordinate(board.cols),
    );
    let mut i: usize = 0;
    assert(board.pieces@.subrange(0, 0) =~= Seq::<Piece>::empty());
    while i < board.pieces.len()
        invariant
            i <= board.pieces.len(),
            print == fingerprint_through(board.rows, board.cols, board.pieces@.subrange(0, i as int)),
        decreases board.pieces.len() - i,
    {
        assert(board.pieces@.subrange(0, i + 1).drop_last() =~= board.pieces@.subrange(0, i as int));
        print = mix_words(print, code_of_piece(board.pieces[i]));
        i += 1;
    }
    assert(board.pieces@.subrange(0, board.pieces.len() as int) =~= board.pieces@);
    print
}

/// Following the links from position `from` leads to position `to`.
spec fn linked(next: Seq<usize>, from: int, to: int) -> bool
    decreases from,
{
    from == to || (0 < from < next.len() && next[from] < from && linked(next, next[from] as int, to))
}

/// Links added behind the ones that are there change nothing for them.
proof fn lemma_linked_extends(shorter: Seq<usize>, longer: Seq<usize>, from: int, to: int)
    requires
        0 <= from < shorter.len() <= longer.len(),
        forall|i: int| 0 <= i < shorter.len() ==> shorter[i] == longer[i],
    ensures
        linked(shorter, from, to) == linked(longer, from, to),
    decreases from,
{
    if from != to && 0 < from && shorter[from] < from {
        lemma_linked_extends(shorter, longer, shorter[from] as int, to);
    }
}

/// A set of boards.
#[derive(Debug)]
pub struct BoardSet {
    boards: Vec<Board>,
    next: Vec<usize>,
    heads: HashMap<u64, usize>,
}

impl View for BoardSet {
    type V = Set<BoardView>;

    closed spec fn view(&self) -> Set<BoardView> {
        self.views().to_set()
    }
}

impl Clone for BoardSet {
    /// A set that holds the same boards.
    fn clone(&self) -> (copy: Self)
        ensures
            copy@ == self@,
            copy.views() == self.views(),
    {
        proof {
            use_type_invariant(self);
        }
        let mut boards: Vec<Board> = Vec::with_capacity(self.boards.len());
        let mut i: usize = 0;
        while i < self.boards.len()
            invariant
                i <= self.boards.len(),
                boards@.len() == i,
                forall|k: int| 0 <= k < i ==> (#[trigger] boards@[k])@ == self.boards@[k]@,
            decreases self.boards.len() - i,
        {
            boards.push(self.boards[i].clone());
            i += 1;
        }
        let next = self.next.clone();
        let heads = self.heads.clone();
        proof {
            let copy = BoardSet { boards, next, heads };
            assert(copy.next@ =~= self.next@);
            assert(copy.views() =~= self.views());
            assert forall|k: int| 0 <= k < copy.boards@.len() implies copy.key(k) == self.key(k) by {
                assert(copy.boards@[k]@ == self.boards@[k]@);
            }
            assert forall|k: int, j: int| 0 <= k < j < copy.boards@.len() implies (
            #[trigger] copy.boards@[k])@ != (#[trigger] copy.boards@[j])@ by {
                assert(self.boards@[k]@ != self.boards@[j]@);
            }
            assert forall|k: int| 0 <= k < copy.next@.len() implies (#[trigger] copy.next@[k]) <= k
                && copy.key(copy.next@[k] as int) == copy.key(k) by {
                assert(self.next@[k] <= k);
            }
            assert forall|k: int| 0 <= k < copy.boards@.len() implies copy.heads@.contains_key(
                #[trigger] copy.key(k),
            ) && linked(copy.next@, copy.heads@[copy.key(k)] as int, k) by {
                assert(self.heads@.contains_key(self.key(k)));
            }
            assert(copy.wf());
        }
        BoardSet { boards, next, heads }
    }
}

impl BoardSet {
    /// The boards of the set in the order in which they arrived.
    pub closed spec fn views(&self) -> Seq<BoardView> {
        self.boards@.map_values(|b: Board| b@)
    }

    spec fn key(&self, i: int) -> u64 {
        fingerprint(self.boards@[i]@)
    }

    /// The links and the map fit the boards, and no board occurs twice.
    #[verifier::type_invariant]
    closed spec fn wf(&self) -> bool {
        &&& self.next@.len() == self.boards@.len()
        &&& forall|i: int|
            0 <= i < self.next@.len() ==> (#[trigger] self.next@[i]) <= i && self.key(
                self.next@[i] as int,
            ) == self.key(i)
        &&& forall|k: u64| #[trigger]
            self.heads@.contains_key(k) ==> self.heads@[k] < self.boards@.len() && self.key(
                self.heads@[k] as int,
            ) == k
        &&& forall|i: int|
            0 <= i < self.boards@.len() ==> self.heads@.contains_key(#[trigger] self.key(i))
                && linked(self.next@, self.heads@[self.key(i)] as int, i)
        &&& forall|i: int, j: int|
            0 <= i < j < self.boards@.len() ==> (#[trigger] self.boards@[i])@
                != (#[trigger] self.boards@[j])@
    }

    /// A set counts each of its boards once, and there are finitely many.
    proof fn lemma_views(&self)
        requires
            self.wf(),
        ensures
            self@ == self.views().to_set(),
            self.views().no_duplicates(),
            self@.finite(),
            self@.len() == self.views().len(),
    {
        let views = self.views();
        assert forall|i: int, j: int| 0 <= i < views.len() && 0 <= j < views.len() && i
            != j implies views[i] != views[j] by {
            if i < j {
                assert(self.boards@[i]@ != self.boards@[j]@);
            } else {
                assert(self.boards@[j]@ != self.boards@[i]@);
            }
        }
        views.unique_seq_to_set();
        vstd::seq_lib::seq_to_set_is_finite(views);
    }

    /// The set with no board in it.
    pub fn new() -> (set: BoardSet)
        ensures
            set@ == Set::<BoardView>::empty(),
    {
        let set = BoardSet { boards: Vec::new(), next: Vec::new(), heads: HashMap::new() };
        assert(set@ =~= Set::<BoardView>::empty());
        set
    }

    /// The number of boards in the set.
    pub fn len(&self) -> (count: usize)
        ensures
            count == self@.len(),
            self@.finite(),
    {
        proof {
            use_type_invariant(self);
        }
        proof {
            self.lemma_views();
        }
        self.boards.len()
    }

    /// Whether the set holds no board.
    pub fn is_empty(&self) -> (empty: bool)
        ensures
            empty == (self@ == Set::<BoardView>::empty()),
    {
        proof {
            use_type_invariant(self);
        }
        proof {
            self.lemma_views();
            if self.boards@.len() > 0 {
                assert(self.views()[0] == self.boards@[0]@);
                assert(self@.contains(self.boards@[0]@));
            } else {
                assert(self@ =~= Set::<BoardView>::empty());
            }
        }
        self.boards.len() == 0
    }

    /// The boards of the set, each once, in the order in which they arrived.
    pub fn boards(&self) -> (all: &Vec<Board>)
        ensures
            all@.map_values(|b: Board| b@) == self.views(),
            self.views().to_set() == self@,
            self.views().no_duplicates(),
    {
        proof {
            use_type_invariant(self);
        }
        proof {
            self.lemma_views();
        }
        &self.boards
    }

    /// The position of the latest board with the given fingerprint, or the number
    /// of boards if there is none.
    fn chain_head(&self, key: u64) -> (head: usize)
        ensures
            head <= self.boards@.len(),
            head == self.boards@.len() ==> !self.heads@.contains_key(key),
            head < self.boards@.len() ==> self.heads@.contains_key(key) && self.heads@[key] == head,
    {
        proof {
            use_type_invariant(self);
        }
        match self.heads.get(&key) {
            None => self.boards.len(),
            Some(first) => *first,
        }
    }

    /// Whether one of the boards linked from `head` equals `board`.
    fn chain_holds(&self, head: usize, board: &Board) -> (found: bool)
        requires
            self.wf(),
            head < self.boards@.len(),
        ensures
            found == exists|i: int|
                0 <= i < self.boards@.len() && linked(self.next@, head as int, i) && (
                #[trigger] self.boards@[i])@ == board@,
    {
        proof {
            use_type_invariant(self);
        }
        let mut at: usize = head;
        loop
            invariant
                self.wf(),
                at <= head < self.boards@.len(),
                linked(self.next@, head as int, at as int),
                forall|i: int|
                    0 <= i < self.boards@.len() && linked(self.next@, head as int, i) && (
                    #[trigger] self.boards@[i])@ == board@ ==> linked(self.next@, at as int, i),
            decreases at,
        {
            if self.boards[at] == *board {
                assert(self.boards@[at as int]@ == board@);
                return true;
            }
            let following = self.next[at];
            proof {
                lemma_linked_step(self.next@, head as int, at as int);
            }
            if following == at {
                return false;
            }
            proof {
                lemma_linked_onward(self.next@, head as int, at as int);
            }
            at = following;
        }
    }

    /// Whether the set holds `board`.
    pub fn contains(&self, board: &Board) -> (held: bool)
        ensures
            held == self@.contains(board@),
    {
        proof {
            use_type_invariant(self);
        }
        let key = fingerprint_of(board);
        let head = self.chain_head(key);
        let held = head < self.boards.len() && self.chain_holds(head, board);
        proof {
            self.lemma_held(key, board@);
        }
        held
    }

    /// A board of the set is found through the links from the latest board with
    /// its fingerprint.
    proof fn lemma_held(&self, key: u64, board: BoardView)
        requires
            self.wf(),
            key == fingerprint(board),
        ensures
            self@.contains(board) <==> self.heads@.contains_key(key) && exists|i: int|
                0 <= i < self.boards@.len() && linked(self.next@, self.heads@[key] as int, i) && (
                #[trigger] self.boards@[i])@ == board,
    {
        if self@.contains(board) {
            let i = choose|i: int| 0 <= i < self.views().len() && self.views()[i] == board;
            assert(self.boards@[i]@ == board);
            assert(self.key(i) == key);
        }
        if self.heads@.contains_key(key) && exists|i: int|
            0 <= i < self.boards@.len() && linked(self.next@, self.heads@[key] as int, i) && (
            #[trigger] self.boards@[i])@ == board {
            let i = choose|i: int|
                0 <= i < self.boards@.len() && linked(self.next@, self.heads@[key] as int, i) && (
                #[trigger] self.boards@[i])@ == board;
            assert(self.views()[i] == board);
        }
    }

    /// Adds `board` to the set, and says whether it was new.
    pub fn insert(&mut self, board: Board) -> (fresh: bool)
        ensures
            final(self)@ == old(self)@.insert(board@),
            fresh == !old(self)@.contains(board@),
            final(self).views() == if fresh {
                old(self).views().push(board@)
            } else {
                old(self).views()
            },
    {
        proof {
            use_type_invariant(&*self);
        }
        let key = fingerprint_of(&board);
        let count = self.boards.len();
        let head = self.chain_head(key);
        proof {
            self.lemma_held(key, board@);
        }
        if head < count && self.chain_holds(head, &board) {
            assert(self@.insert(board@) =~= self@);
            return false;
        }
        let mut whole = BoardSet::new();
        std::mem::swap(self, &mut whole);
        *self = whole.with_board(board, key, head);
        true
    }

    /// The set with `board`, which it does not hold, added behind its boards.
    fn with_board(self, board: Board, key: u64, head: usize) -> (grown: BoardSet)
        requires
            key == fingerprint(board@),
            !self@.contains(board@),
            head <= self.boards@.len(),
            head == self.boards@.len() ==> !self.heads@.contains_key(key),
            head < self.boards@.len() ==> self.heads@.contains_key(key) && self.heads@[key] == head,
        ensures
            grown@ == self@.insert(board@),
            grown.views() == self.views().push(board@),
    {
        proof {
            use_type_invariant(&self);
        }
        let ghost before = self;
        let BoardSet { boards, next, heads } = self;
        let mut boards = boards;
        let mut next = next;
        let mut heads = heads;
        let count = boards.len();
        boards.push(board);
        next.push(head);
        heads.insert(key, count);
        proof {
            let after = BoardSet { boards, next, heads };
            assert(after.views() =~= before.views().push(board@));
            assert forall|b: BoardView| after@.contains(b) <==> before@.insert(board@).contains(
                b,
            ) by {
                if after@.contains(b) {
                    let i = choose|i: int| 0 <= i < after.views().len() && after.views()[i] == b;
                    if i < count {
                        assert(before.views()[i] == b);
                    }
                }
                if before@.contains(b) {
                    let i = choose|i: int| 0 <= i < before.views().len() && before.views()[i] == b;
                    assert(after.views()[i] == b);
                }
                if b == board@ {
                    assert(after.views()[count as int] == b);
                }
            }
            assert(after@ =~= before@.insert(board@));
            assert forall|i: int| 0 <= i < after.boards@.len() implies after.key(i) == if i < count {
                before.key(i)
            } else {
                key
            } by {}
            assert forall|i: int| 0 <= i < after.boards@.len() implies after.heads@.contains_key(
                #[trigger] after.key(i),
            ) && linked(after.next@, after.heads@[after.key(i)] as int, i) by {
                if i < count {
                    assert(before.heads@.contains_key(before.key(i)));
                    if before.key(i) == key {
                        lemma_linked_extends(before.next@, after.next@, head as int, i);
                    } else {
                        lemma_linked_extends(
                            before.next@,
                            after.next@,
                            before.heads@[before.key(i)] as int,
                            i,
                        );
                    }
                }
            }
            assert forall|i: int, j: int| 0 <= i < j < after.boards@.len() implies (
            #[trigger] after.boards@[i])@ != (#[trigger] after.boards@[j])@ by {
                if j == count {
                    assert(before.views()[i] == before.boards@[i]@);
                    assert(before@.contains(before.boards@[i]@));
                }
            }
            assert forall|i: int| 0 <= i < after.next@.len() implies (#[trigger] after.next@[i])
                <= i && after.key(after.next@[i] as int) == after.key(i) by {
                if i < count {
                    assert(before.next@[i] <= i);
                }
            }
            assert forall|k: u64| #[trigger] after.heads@.contains_key(k) implies after.heads@[k]
                < after.boards@.len() && after.key(after.heads@[k] as int) == k by {
                if k != key {
                    assert(before.heads@.contains_key(k));
                }
            }
            assert(after.wf());
        }
        BoardSet { boards, next, heads }
    }
}

/// The link of a position that the links lead to is led to as well.
proof fn lemma_linked_onward(next: Seq<usize>, from: int, at: int)
    requires
        linked(next, from, at),
        0 < at < next.len(),
        next[at] < at,
    ensures
        linked(next, from, next[at] as int),
    decreases from,
{
    if from != at {
        lemma_linked_onward(next, next[from] as int, at);
    } else {
        assert(linked(next, next[at] as int, next[at] as int));
    }
}

/// From a position on the way from `from`, the positions further on are those
/// that its link leads to.
proof fn lemma_linked_step(next: Seq<usize>, from: int, at: int)
    ensures
        forall|to: int| linked(next, at, to) && to != at ==> 0 < at < next.len() && next[at] < at && linked(
            next,
            next[at] as int,
            to,
        ),
{
}

} // verus!
