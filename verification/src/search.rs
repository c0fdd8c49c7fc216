//! The search: every board on which a sequence of piece kinds has been placed
//! safely.
//!
//! The search works through a stack of tasks. A task is a board and the kinds
//! still to place on it. To expand a task is to try the first of its kinds on
//! every square: where the board admits the piece, a board with one piece more
//! comes of it. If kinds remain, that board is a new task, unless a board with
//! the same pieces has been seen before; if none remain, it is a solution.

use crate::board::{Board, BoardView};
use crate::board_set::BoardSet;
use crate::piece::{ChessPiece, Piece};
use crate::placement::{is_solution, lemma_reachable_is_solution};
use std::collections::VecDeque;
use vstd::prelude::*;

verus! {

/// A board to extend and the kinds still to place on it, in order.
#[derive(Debug)]
pub struct SearchTask {
    pub board: Board,
    pub remaining: Vec<ChessPiece>,
}

/// `after` comes of `before` by placing `candidate`, a piece of kind `kind`, on
/// a square of the board that is free and safe.
pub open spec fn step(
    before: BoardView,
    kind: ChessPiece,
    candidate: Piece,
    after: BoardView,
) -> bool {
    candidate.piece == kind && before.admits(candidate) && after == before.place(candidate)
}

/// The square of `candidate` comes before the square `(row, col)` when the
/// squares are read row by row.
pub open spec fn precedes(candidate: Piece, row: int, col: int) -> bool {
    candidate.row < row || (candidate.row == row && candidate.col < col)
}

/// The boards that come of `board` by placing one piece of kind `kind`.
pub open spec fn successors(board: BoardView, kind: ChessPiece) -> Set<BoardView> {
    Set::new(|after: BoardView| exists|candidate: Piece| step(board, kind, candidate, after))
}

/// The boards that come of `board` by placing one piece of kind `kind` on a
/// square before `(row, col)`.
pub open spec fn successors_before(board: BoardView, kind: ChessPiece, row: int, col: int) -> Set<
    BoardView,
> {
    Set::new(
        |after: BoardView|
            exists|candidate: Piece| #[trigger]
                step(board, kind, candidate, after) && precedes(candidate, row, col),
    )
}

/// No square comes before the first.
pub(crate) proof fn lemma_successors_start(board: BoardView, kind: ChessPiece)
    ensures
        successors_before(board, kind, 1, 1) == Set::<BoardView>::empty(),
{
    assert(successors_before(board, kind, 1, 1) =~= Set::<BoardView>::empty());
}

/// Past the last column of a row comes the first column of the next.
pub(crate) proof fn lemma_successors_next_row(board: BoardView, kind: ChessPiece, row: int, col: int)
    requires
        col > board.cols,
    ensures
        successors_before(board, kind, row, col) == successors_before(board, kind, row + 1, 1),
{
    assert(successors_before(board, kind, row, col) =~= successors_before(board, kind, row + 1, 1));
}

/// Past the last row, every square has been passed.
pub(crate) proof fn lemma_successors_end(board: BoardView, kind: ChessPiece, row: int)
    requires
        row > board.rows,
    ensures
        successors_before(board, kind, row, 1) == successors(board, kind),
{
    assert(successors_before(board, kind, row, 1) =~= successors(board, kind));
}

/// One square further, the board that comes of placing the piece there is added,
/// if the board admits it.
pub(crate) proof fn lemma_successors_next_square(board: BoardView, candidate: Piece)
    ensures
        successors_before(board, candidate.piece, candidate.row as int, candidate.col + 1) == if board.admits(
            candidate,
        ) {
            successors_before(
                board,
                candidate.piece,
                candidate.row as int,
                candidate.col as int,
            ).insert(board.place(candidate))
        } else {
            successors_before(board, candidate.piece, candidate.row as int, candidate.col as int)
        },
{
    let kind = candidate.piece;
    let row = candidate.row as int;
    let col = candidate.col as int;
    let further = successors_before(board, kind, row, col + 1);
    let so_far = successors_before(board, kind, row, col);
    let expected = if board.admits(candidate) {
        so_far.insert(board.place(candidate))
    } else {
        so_far
    };
    assert forall|after: BoardView| further.contains(after) <==> expected.contains(after) by {
        if further.contains(after) {
            let c = choose|c: Piece| #[trigger] step(board, kind, c, after) && precedes(c, row, col + 1);
            if !precedes(c, row, col) {
                assert(c == candidate);
            }
        }
        if so_far.contains(after) {
            let c = choose|c: Piece| #[trigger] step(board, kind, c, after) && precedes(c, row, col);
            assert(step(board, kind, c, after) && precedes(c, row, col + 1));
        }
        if board.admits(candidate) && after == board.place(candidate) {
            assert(step(board, kind, candidate, after) && precedes(candidate, row, col + 1));
        }
    }
    assert(further =~= expected);
}

/// The most squares a board can have.
pub open spec fn most_squares() -> int {
    16129
}

/// `after` is `before` with tasks pushed onto it: one for each board of
/// `boards`, and no more, each with the kinds `remaining`.
pub open spec fn pushed(
    before: Seq<SearchTask>,
    after: Seq<SearchTask>,
    remaining: Seq<ChessPiece>,
    boards: Set<BoardView>,
) -> bool {
    &&& before.len() <= after.len()
    &&& forall|i: int| 0 <= i < before.len() ==> #[trigger] after[i] == before[i]
    &&& forall|i: int|
        before.len() <= i < after.len() ==> (#[trigger] after[i]).remaining@ == remaining
            && boards.contains(after[i].board@)
    &&& forall|b: BoardView| #[trigger]
        boards.contains(b) ==> exists|i: int|
            before.len() <= i < after.len() && (#[trigger] after[i]).board@ == b
    &&& forall|i: int, j: int|
        before.len() <= i < j < after.len() ==> (#[trigger] after[i]).board@
            != (#[trigger] after[j]).board@
}

/// A copy of the kinds after the first.
fn rest_of(kinds: &Vec<ChessPiece>) -> (rest: Vec<ChessPiece>)
    requires
        kinds@.len() >= 1,
    ensures
        rest@ == kinds@.drop_first(),
{
    let mut rest: Vec<ChessPiece> = Vec::with_capacity(kinds.len() - 1);
    let mut i: usize = 1;
    while i < kinds.len()
        invariant
            1 <= i <= kinds.len(),
            rest@ == kinds@.subrange(1, i as int),
        decreases kinds.len() - i,
    {
        rest.push(kinds[i]);
        assert(rest@ =~= kinds@.subrange(1, i + 1));
        i += 1;
    }
    assert(kinds@.subrange(1, kinds.len() as int) =~= kinds@.drop_first());
    rest
}

/// Expands one task: tries the first of its kinds on every square of its board.
///
/// With no kind left, nothing happens. With one kind left, every board that
/// comes of the placement joins `solutions`. With more left, every such board
/// joins `tested_configurations`, and each that was not in it before is pushed
/// onto `board_stack` as a task with the kinds after the first.
pub fn expand(
    task: &SearchTask,
    board_stack: &mut VecDeque<SearchTask>,
    solutions: &mut BoardSet,
    tested_configurations: &mut BoardSet,
)
    ensures
        task.remaining@.len() == 0 ==> {
            &&& final(board_stack)@ == old(board_stack)@
            &&& final(solutions)@ == old(solutions)@
            &&& final(tested_configurations)@ == old(tested_configurations)@
        },
        task.remaining@.len() == 1 ==> {
            &&& final(board_stack)@ == old(board_stack)@
            &&& final(solutions)@ == old(solutions)@.union(
                successors(task.board@, task.remaining@[0]),
            )
            &&& final(tested_configurations)@ == old(tested_configurations)@
        },
        task.remaining@.len() >= 2 ==> {
            &&& pushed(
                old(board_stack)@,
                final(board_stack)@,
                task.remaining@.drop_first(),
                successors(task.board@, task.remaining@[0]).difference(
                    old(tested_configurations)@,
                ),
            )
            &&& final(board_stack)@.len() <= old(board_stack)@.len() + most_squares()
            &&& final(solutions)@ == old(solutions)@
            &&& final(tested_configurations)@ == old(tested_configurations)@.union(
                successors(task.board@, task.remaining@[0]),
            )
        },
{
    if task.remaining.len() == 0 {
        return;
    }
    let kind = task.remaining[0];
    let more = task.remaining.len() > 1;
    let ghost board = task.board@;
    let ghost rest = task.remaining@.drop_first();
    let ghost stack0 = board_stack@;
    let ghost found0 = solutions@;
    let ghost tested0 = tested_configurations@;
    proof {
        lemma_successors_start(board, kind);
        assert(found0.union(Set::<BoardView>::empty()) =~= found0);
        assert(tested0.union(Set::<BoardView>::empty()) =~= tested0);
        assert(Set::<BoardView>::empty().difference(tested0) =~= Set::<BoardView>::empty());
    }
    let mut row: i16 = 1;
    while row <= task.board.rows as i16
        invariant
            1 <= row <= 128,
            row <= task.board.rows + 1 || row == 1,
            board == task.board@,
            kind == task.remaining@[0],
            rest == task.remaining@.drop_first(),
            more == (task.remaining@.len() >= 2),
            task.remaining@.len() >= 1,
            more ==> solutions@ == found0,
            more ==> tested_configurations@ == tested0.union(
                successors_before(board, kind, row as int, 1),
            ),
            more ==> pushed(
                stack0,
                board_stack@,
                rest,
                successors_before(board, kind, row as int, 1).difference(tested0),
            ),
            more ==> board_stack@.len() <= stack0.len() + (row - 1) * 127,
            !more ==> solutions@ == found0.union(successors_before(board, kind, row as int, 1)),
            !more ==> tested_configurations@ == tested0,
            !more ==> board_stack@ == stack0,
        decreases 128 - row,
    {
        let mut col: i16 = 1;
        while col <= task.board.cols as i16
            invariant
                1 <= row <= 127,
                row <= task.board.rows,
                1 <= col <= 128,
                col <= task.board.cols + 1 || col == 1,
                board == task.board@,
                kind == task.remaining@[0],
                rest == task.remaining@.drop_first(),
                more == (task.remaining@.len() >= 2),
                task.remaining@.len() >= 1,
                more ==> solutions@ == found0,
                more ==> tested_configurations@ == tested0.union(
                    successors_before(board, kind, row as int, col as int),
                ),
                more ==> pushed(
                    stack0,
                    board_stack@,
                    rest,
                    successors_before(board, kind, row as int, col as int).difference(tested0),
                ),
                more ==> board_stack@.len() <= stack0.len() + (row - 1) * 127 + (col - 1),
                !more ==> solutions@ == found0.union(
                    successors_before(board, kind, row as int, col as int),
                ),
                !more ==> tested_configurations@ == tested0,
                !more ==> board_stack@ == stack0,
            decreases 128 - col,
        {
            let candidate = Piece { row: row as i8, col: col as i8, piece: kind };
            let ghost so_far = successors_before(board, kind, row as int, col as int);
            let ghost stack_before = board_stack@;
            proof {
                lemma_successors_next_square(board, candidate);
            }
            if task.board.admits(candidate) {
                let next = task.board.place(candidate);
                if more {
                    let fresh = tested_configurations.insert(next.clone());
                    if fresh {
                        let remaining = rest_of(&task.remaining);
                        board_stack.push_back(SearchTask { board: next, remaining });
                    }
                    proof {
                        let further = so_far.insert(next@);
                        assert(tested_configurations@ =~= tested0.union(further));
                        if fresh {
                            assert(board_stack@.drop_last() =~= stack_before);
                        }
                        lemma_pushed_further(
                            stack0,
                            stack_before,
                            board_stack@,
                            rest,
                            so_far,
                            tested0,
                            next@,
                        );
                    }
                } else {
                    solutions.insert(next);
                    assert(solutions@ =~= found0.union(so_far.insert(board.place(candidate))));
                }
            }
            col += 1;
        }
        proof {
            lemma_successors_next_row(board, kind, row as int, col as int);
        }
        row += 1;
    }
    proof {
        lemma_successors_end(board, kind, row as int);
    }
}

/// The stack after one more square: if the board that came of it was new, a
/// task for it has been pushed; if not, the stack is as before.
proof fn lemma_pushed_further(
    stack0: Seq<SearchTask>,
    before: Seq<SearchTask>,
    after: Seq<SearchTask>,
    rest: Seq<ChessPiece>,
    so_far: Set<BoardView>,
    tested0: Set<BoardView>,
    next: BoardView,
)
    requires
        pushed(stack0, before, rest, so_far.difference(tested0)),
        tested0.union(so_far).contains(next) ==> after == before,
        !tested0.union(so_far).contains(next) ==> after.len() == before.len() + 1 && after.drop_last()
            == before && after.last().board@ == next && after.last().remaining@ == rest,
    ensures
        pushed(stack0, after, rest, so_far.insert(next).difference(tested0)),
{
    let boards = so_far.insert(next).difference(tested0);
    if tested0.union(so_far).contains(next) {
        assert(boards =~= so_far.difference(tested0));
    } else {
        assert forall|i: int| 0 <= i < before.len() implies #[trigger] after[i] == before[i] by {
            assert(after.drop_last()[i] == after[i]);
        }
        assert forall|b: BoardView| #[trigger] boards.contains(b) implies exists|i: int|
            stack0.len() <= i < after.len() && (#[trigger] after[i]).board@ == b by {
            if b == next {
                assert(after[after.len() - 1].board@ == b);
            } else {
                assert(so_far.difference(tested0).contains(b));
                let i = choose|i: int|
                    stack0.len() <= i < before.len() && (#[trigger] before[i]).board@ == b;
                assert(after[i] == before[i]);
            }
        }
        assert forall|i: int| stack0.len() <= i < after.len() implies (#[trigger] after[i]).remaining@
            == rest && boards.contains(after[i].board@) by {
            if i < before.len() {
                assert(after[i] == before[i]);
                assert(so_far.difference(tested0).contains(before[i].board@));
            }
        }
        assert forall|i: int, j: int| stack0.len() <= i < j < after.len() implies (
        #[trigger] after[i]).board@ != (#[trigger] after[j]).board@ by {
            assert(after[i] == before[i]);
            assert(so_far.difference(tested0).contains(before[i].board@));
            if j < before.len() {
                assert(after[j] == before[j]);
                assert(before[i].board@ != before[j].board@);
            }
        }
    }
}

/// `target` comes of `start` by placing one piece of each of the kinds, in their
/// order, each on a square that was free and safe when the piece was placed.
pub open spec fn reachable(start: BoardView, kinds: Seq<ChessPiece>, target: BoardView) -> bool
    decreases kinds.len(),
{
    if kinds.len() == 0 {
        target == start
    } else {
        exists|before: BoardView, candidate: Piece|
            reachable(start, kinds.drop_last(), before) && #[trigger] step(
                before,
                kinds.last(),
                candidate,
                target,
            )
    }
}

/// The boards on which every one of the kinds has been placed. With no kind to
/// place there is none: the start itself does not count.
pub open spec fn finished(start: BoardView, kinds: Seq<ChessPiece>) -> Set<BoardView> {
    Set::new(|board: BoardView| kinds.len() > 0 && reachable(start, kinds, board))
}

/// The boards on which some, but not all, of the kinds have been placed: at
/// least the first, and not the last.
pub open spec fn passed(start: BoardView, kinds: Seq<ChessPiece>) -> Set<BoardView> {
    Set::new(
        |board: BoardView|
            exists|d: int| 0 < d < kinds.len() && #[trigger] reachable(start, kinds.take(d), board),
    )
}

/// Each placement adds one piece and keeps the dimensions.
pub proof fn lemma_reachable_size(start: BoardView, kinds: Seq<ChessPiece>, target: BoardView)
    requires
        reachable(start, kinds, target),
    ensures
        target.pieces.len() == start.pieces.len() + kinds.len(),
        target.rows == start.rows,
        target.cols == start.cols,
    decreases kinds.len(),
{
    if kinds.len() > 0 {
        let (before, candidate) = choose|before: BoardView, candidate: Piece|
            reachable(start, kinds.drop_last(), before) && #[trigger] step(
                before,
                kinds.last(),
                candidate,
                target,
            );
        lemma_reachable_size(start, kinds.drop_last(), before);
        lemma_step_size(before, kinds.last(), candidate, target);
    }
}

/// A placement adds one piece and keeps the dimensions.
pub proof fn lemma_step_size(before: BoardView, kind: ChessPiece, candidate: Piece, after: BoardView)
    requires
        step(before, kind, candidate, after),
    ensures
        after.pieces.len() == before.pieces.len() + 1,
        after.rows == before.rows,
        after.cols == before.cols,
        !before.pieces.contains(candidate),
{
    before.lemma_place(candidate);
    if before.pieces.contains(candidate) {
        let i = choose|i: int| 0 <= i < before.pieces.len() && before.pieces[i] == candidate;
        assert(before.pieces[i].row == candidate.row && before.pieces[i].col == candidate.col);
    }
}

/// From a valid board the search reaches valid boards only, and from one on
/// which no piece attacks another only such boards.
pub proof fn lemma_reachable_keeps_valid(start: BoardView, kinds: Seq<ChessPiece>, target: BoardView)
    requires
        start.is_valid(),
        reachable(start, kinds, target),
    ensures
        target.is_valid(),
        start.is_peaceful() ==> target.is_peaceful(),
    decreases kinds.len(),
{
    if kinds.len() > 0 {
        let (before, candidate) = choose|before: BoardView, candidate: Piece|
            reachable(start, kinds.drop_last(), before) && #[trigger] step(
                before,
                kinds.last(),
                candidate,
                target,
            );
        lemma_reachable_keeps_valid(start, kinds.drop_last(), before);
        crate::board::lemma_place_keeps_valid(before, candidate);
        if start.is_peaceful() {
            crate::board::lemma_place_keeps_peace(before, candidate);
        }
    }
}

/// One more placement reaches one kind further.
pub(crate) proof fn lemma_reachable_further(
    start: BoardView,
    kinds: Seq<ChessPiece>,
    d: int,
    before: BoardView,
    candidate: Piece,
    after: BoardView,
)
    requires
        0 <= d < kinds.len(),
        reachable(start, kinds.take(d), before),
        step(before, kinds[d], candidate, after),
    ensures
        reachable(start, kinds.take(d + 1), after),
{
    assert(kinds.take(d + 1).drop_last() =~= kinds.take(d));
    assert(kinds.take(d + 1).last() == kinds[d]);
}

/// What is reached with one kind or more came by a placement from what is
/// reached with one kind fewer.
pub(crate) proof fn lemma_reachable_back(
    start: BoardView,
    kinds: Seq<ChessPiece>,
    d: int,
    after: BoardView,
) -> (from: (BoardView, Piece))
    requires
        0 <= d < kinds.len(),
        reachable(start, kinds.take(d + 1), after),
    ensures
        reachable(start, kinds.take(d), from.0),
        step(from.0, kinds[d], from.1, after),
{
    assert(kinds.take(d + 1).drop_last() =~= kinds.take(d));
    assert(kinds.take(d + 1).last() == kinds[d]);
    choose|before: BoardView, candidate: Piece|
        reachable(start, kinds.take(d + 1).drop_last(), before) && #[trigger] step(
            before,
            kinds.take(d + 1).last(),
            candidate,
            after,
        )
}

/// How much work a task with `left` kinds may still cause: more than all the
/// tasks that its expansion can push, taken together.
spec fn weight(left: nat) -> nat
    decreases left,
{
    if left == 0 {
        1
    } else {
        16130 * weight((left - 1) as nat)
    }
}

/// The weights of the tasks of a stack, added up.
spec fn stack_weight(stack: Seq<SearchTask>) -> nat
    decreases stack.len(),
{
    if stack.len() == 0 {
        0
    } else {
        stack_weight(stack.drop_last()) + weight(stack.last().remaining@.len())
    }
}

proof fn lemma_weight_positive(left: nat)
    ensures
        weight(left) > 0,
    decreases left,
{
    if left > 0 {
        lemma_weight_positive((left - 1) as nat);
        assert(16130 * weight((left - 1) as nat) > 0) by (nonlinear_arith)
            requires
                weight((left - 1) as nat) > 0,
        ;
    }
}

/// Tasks pushed onto a stack add their weights to it.
proof fn lemma_pushed_weight(
    before: Seq<SearchTask>,
    after: Seq<SearchTask>,
    remaining: Seq<ChessPiece>,
)
    requires
        before.len() <= after.len(),
        forall|i: int| 0 <= i < before.len() ==> #[trigger] after[i] == before[i],
        forall|i: int|
            before.len() <= i < after.len() ==> (#[trigger] after[i]).remaining@ == remaining,
    ensures
        stack_weight(after) == stack_weight(before) + (after.len() - before.len()) * weight(
            remaining.len(),
        ),
    decreases after.len(),
{
    if after.len() == before.len() {
        assert(after =~= before);
        assert(0 * weight(remaining.len()) == 0) by (nonlinear_arith);
    } else {
        let shorter = after.drop_last();
        assert forall|i: int| 0 <= i < before.len() implies #[trigger] shorter[i] == before[i] by {
            assert(after[i] == before[i]);
        }
        assert forall|i: int| before.len() <= i < shorter.len() implies (
        #[trigger] shorter[i]).remaining@ == remaining by {
            assert(after[i].remaining@ == remaining);
        }
        lemma_pushed_weight(before, shorter, remaining);
        assert(after.last().remaining@ == remaining);
        let k = shorter.len() - before.len();
        let w = weight(remaining.len());
        assert((k + 1) * w == k * w + w) by (nonlinear_arith);
    }
}

/// Some task of the stack holds the board.
pub(crate) open spec fn on_stack(stack: Seq<SearchTask>, board: BoardView) -> bool {
    exists|i: int| 0 <= i < stack.len() && (#[trigger] stack[i]).board@ == board
}

/// The task belongs to the search from `start` for `kinds`: its kinds are the
/// last of `kinds`, and its board is reached with the ones before them.
pub(crate) open spec fn task_fits(
    start: BoardView,
    kinds: Seq<ChessPiece>,
    tested: Set<BoardView>,
    task: SearchTask,
) -> bool {
    let left = task.remaining@.len();
    let d = kinds.len() - left;
    &&& left <= kinds.len()
    &&& (left >= 1 || kinds.len() == 0)
    &&& task.remaining@ == kinds.skip(d)
    &&& reachable(start, kinds.take(d), task.board@)
    &&& (d == 0 || tested.contains(task.board@))
}

/// Every board that comes of `board` by placing the kind at position `d` is
/// where it belongs: among the tested boards if kinds remain after it, among
/// the found ones if not.
pub(crate) open spec fn settled(
    kinds: Seq<ChessPiece>,
    d: int,
    board: BoardView,
    tested: Set<BoardView>,
    found: Set<BoardView>,
) -> bool {
    successors(board, kinds[d]).subset_of(
        if d + 1 < kinds.len() {
            tested
        } else {
            found
        },
    )
}

/// What holds between two expansions of the search from `start` for `kinds`,
/// which began with the boards `found0` already found.
pub(crate) open spec fn search_inv(
    start: BoardView,
    kinds: Seq<ChessPiece>,
    found0: Set<BoardView>,
    stack: Seq<SearchTask>,
    tested: Set<BoardView>,
    found: Set<BoardView>,
) -> bool {
    &&& forall|i: int| 0 <= i < stack.len() ==> task_fits(start, kinds, tested, #[trigger] stack[i])
    &&& tested.subset_of(passed(start, kinds))
    &&& found.subset_of(found0.union(finished(start, kinds)))
    &&& found0.subset_of(found)
    &&& forall|d: int, board: BoardView|
        0 <= d < kinds.len() && #[trigger] reachable(start, kinds.take(d), board) && (d == 0
            || tested.contains(board)) ==> on_stack(stack, board) || settled(
            kinds,
            d,
            board,
            tested,
            found,
        )
}

/// The search begins in a state that it can keep.
proof fn lemma_search_begins(task: SearchTask, found0: Set<BoardView>)
    ensures
        search_inv(
            task.board@,
            task.remaining@,
            found0,
            seq![task],
            Set::<BoardView>::empty(),
            found0,
        ),
{
    let start = task.board@;
    let kinds = task.remaining@;
    let stack = seq![task];
    assert(kinds.skip(0) =~= kinds);
    assert(kinds.take(0) =~= Seq::<ChessPiece>::empty());
    assert(reachable(start, kinds.take(0), start));
    assert forall|d: int, board: BoardView|
        0 <= d < kinds.len() && #[trigger] reachable(start, kinds.take(d), board) && (d == 0
            || Set::<BoardView>::empty().contains(board)) implies on_stack(stack, board) by {
        assert(stack[0].board@ == board);
    }
}

/// Expanding the task on top of the stack keeps the state of the search.
proof fn lemma_search_step(
    start: BoardView,
    kinds: Seq<ChessPiece>,
    found0: Set<BoardView>,
    stack: Seq<SearchTask>,
    tested: Set<BoardView>,
    found: Set<BoardView>,
    stack2: Seq<SearchTask>,
    tested2: Set<BoardView>,
    found2: Set<BoardView>,
)
    requires
        stack.len() > 0,
        search_inv(start, kinds, found0, stack, tested, found),
        ({
            let task = stack.last();
            let popped = stack.drop_last();
            let left = task.remaining@.len();
            &&& left == 0 ==> stack2 == popped && found2 == found && tested2 == tested
            &&& left == 1 ==> stack2 == popped && tested2 == tested && found2 == found.union(
                successors(task.board@, task.remaining@[0]),
            )
            &&& left >= 2 ==> found2 == found && tested2 == tested.union(
                successors(task.board@, task.remaining@[0]),
            ) && pushed(
                popped,
                stack2,
                task.remaining@.drop_first(),
                successors(task.board@, task.remaining@[0]).difference(tested),
            )
        }),
    ensures
        search_inv(start, kinds, found0, stack2, tested2, found2),
{
    let task = stack.last();
    let popped = stack.drop_last();
    let left = task.remaining@.len();
    let n = kinds.len();
    let at = n - left;
    assert(task_fits(start, kinds, tested, stack[stack.len() - 1]));
    let grown = successors(task.board@, task.remaining@[0]);
    if left >= 1 {
        assert(task.remaining@[0] == kinds[at]);
    }
    // What comes of the task's board is reached with one kind more.
    assert forall|b: BoardView| left >= 1 && grown.contains(b) implies reachable(
        start,
        kinds.take(at + 1),
        b,
    ) by {
        let c = choose|c: Piece| step(task.board@, kinds[at], c, b);
        lemma_reachable_further(start, kinds, at, task.board@, c, b);
    }
    assert(kinds.take(n as int) =~= kinds);
    assert(tested.subset_of(tested2));
    assert(found.subset_of(found2));
    // The tasks fit.
    assert forall|i: int| 0 <= i < stack2.len() implies task_fits(
        start,
        kinds,
        tested2,
        #[trigger] stack2[i],
    ) by {
        if i < popped.len() {
            assert(stack2[i] == stack[i]);
            assert(task_fits(start, kinds, tested, stack[i]));
        } else {
            assert(left >= 2);
            assert(grown.contains(stack2[i].board@));
            assert(kinds.skip(at).drop_first() =~= kinds.skip(at + 1));
        }
    }
    // The tested boards are on the way, the found ones at its end.
    assert forall|b: BoardView| tested2.contains(b) implies passed(start, kinds).contains(b) by {
        if !tested.contains(b) {
            assert(reachable(start, kinds.take(at + 1), b));
        }
    }
    assert forall|b: BoardView| found2.contains(b) implies found0.union(
        finished(start, kinds),
    ).contains(b) by {
        if !found.contains(b) {
            assert(reachable(start, kinds.take(at + 1), b));
        }
    }
    // Every board in reach is on the stack or settled.
    assert forall|d: int, board: BoardView|
        0 <= d < kinds.len() && #[trigger] reachable(start, kinds.take(d), board) && (d == 0
            || tested2.contains(board)) implies on_stack(stack2, board) || settled(
        kinds,
        d,
        board,
        tested2,
        found2,
    ) by {
        if d != 0 && !tested.contains(board) {
            assert(grown.difference(tested).contains(board));
        } else if on_stack(stack, board) {
            let i = choose|i: int| 0 <= i < stack.len() && (#[trigger] stack[i]).board@ == board;
            if i < popped.len() {
                assert(stack2[i] == popped[i]);
                assert(stack2[i].board@ == board);
            } else {
                lemma_reachable_size(start, kinds.take(d), board);
                lemma_reachable_size(start, kinds.take(at), board);
                assert(d == at);
                assert(settled(kinds, d, board, tested2, found2));
            }
        } else {
            assert(settled(kinds, d, board, tested, found));
        }
    }
}

/// When no task is left, every board on the way has been tested.
proof fn lemma_search_passed(
    start: BoardView,
    kinds: Seq<ChessPiece>,
    found0: Set<BoardView>,
    tested: Set<BoardView>,
    found: Set<BoardView>,
    d: int,
    board: BoardView,
)
    requires
        search_inv(start, kinds, found0, Seq::<SearchTask>::empty(), tested, found),
        0 <= d < kinds.len(),
        reachable(start, kinds.take(d), board),
    ensures
        d > 0 ==> tested.contains(board),
        settled(kinds, d, board, tested, found),
    decreases d,
{
    if d > 0 {
        let (before, candidate) = lemma_reachable_back(start, kinds, d - 1, board);
        lemma_search_passed(start, kinds, found0, tested, found, d - 1, before);
        assert(successors(before, kinds[d - 1]).contains(board));
    }
    assert(!on_stack(Seq::<SearchTask>::empty(), board));
}

/// When no task is left, the tested boards are those on the way and the found
/// boards are those at its end, beside the ones found before.
pub(crate) proof fn lemma_search_ends(
    start: BoardView,
    kinds: Seq<ChessPiece>,
    found0: Set<BoardView>,
    tested: Set<BoardView>,
    found: Set<BoardView>,
)
    requires
        search_inv(start, kinds, found0, Seq::<SearchTask>::empty(), tested, found),
    ensures
        tested == passed(start, kinds),
        found == found0.union(finished(start, kinds)),
{
    let n = kinds.len() as int;
    assert forall|b: BoardView| passed(start, kinds).contains(b) implies tested.contains(b) by {
        let d = choose|d: int| 0 < d < kinds.len() && #[trigger] reachable(start, kinds.take(d), b);
        lemma_search_passed(start, kinds, found0, tested, found, d, b);
    }
    assert forall|b: BoardView| finished(start, kinds).contains(b) implies found.contains(b) by {
        assert(kinds.take(n) =~= kinds);
        let (before, candidate) = lemma_reachable_back(start, kinds, n - 1, b);
        lemma_search_passed(start, kinds, found0, tested, found, n - 1, before);
        assert(successors(before, kinds[n - 1]).contains(b));
    }
    assert(tested =~= passed(start, kinds));
    assert(found =~= found0.union(finished(start, kinds)));
}

/// Runs the search to its end.
///
/// `board_stack` holds the one task to begin with: the board to start from and
/// the kinds to place on it. `tested_configurations` is empty. When the search
/// returns, `board_stack` is empty; `solutions` holds, beside what it held
/// before, every board that comes of the start by placing all the kinds, one
/// after the other, each on a square that is free and safe; and
/// `tested_configurations` holds the boards on the way to them.
pub fn solution<'a>(
    board_stack: &mut VecDeque<SearchTask>,
    solutions: &'a mut BoardSet,
    tested_configurations: &mut BoardSet,
) -> (found: &'a BoardSet)
    requires
        old(board_stack)@.len() == 1,
        old(tested_configurations)@ == Set::<BoardView>::empty(),
    ensures
        final(board_stack)@.len() == 0,
        final(solutions)@ == old(solutions)@.union(
            finished(old(board_stack)@[0].board@, old(board_stack)@[0].remaining@),
        ),
        final(tested_configurations)@ == passed(
            old(board_stack)@[0].board@,
            old(board_stack)@[0].remaining@,
        ),
        *found == *final(solutions),
{
    let ghost start = board_stack@[0].board@;
    let ghost kinds = board_stack@[0].remaining@;
    let ghost found0 = solutions@;
    proof {
        lemma_search_begins(board_stack@[0], found0);
        assert(board_stack@ =~= seq![board_stack@[0]]);
    }
    loop
        invariant
            search_inv(start, kinds, found0, board_stack@, tested_configurations@, solutions@),
        ensures
            board_stack@.len() == 0,
            search_inv(start, kinds, found0, board_stack@, tested_configurations@, solutions@),
        decreases stack_weight(board_stack@),
    {
        let ghost stack = board_stack@;
        let ghost tested = tested_configurations@;
        let ghost found = solutions@;
        match board_stack.pop_back() {
            None => {
                break;
            },
            Some(task) => {
                let ghost popped = board_stack@;
                assert(popped =~= stack.drop_last());
                assert(task == stack.last());
                expand(&task, board_stack, solutions, tested_configurations);
                proof {
                    lemma_search_step(
                        start,
                        kinds,
                        found0,
                        stack,
                        tested,
                        found,
                        board_stack@,
                        tested_configurations@,
                        solutions@,
                    );
                    let left = task.remaining@.len();
                    lemma_weight_positive(left);
                    if left >= 2 {
                        lemma_pushed_weight(popped, board_stack@, task.remaining@.drop_first());
                        let k = board_stack@.len() - popped.len();
                        let w = weight((left - 1) as nat);
                        lemma_weight_positive((left - 1) as nat);
                        assert(k * w < 16130 * w) by (nonlinear_arith)
                            requires
                                0 <= k <= 16129,
                                w > 0,
                        ;
                    }
                }
            },
        }
    }
    proof {
        assert(board_stack@ =~= Seq::<SearchTask>::empty());
        lemma_search_ends(start, kinds, found0, tested_configurations@, solutions@);
    }
    solutions
}

/// All solutions for `pieces` on an empty board of `rows` × `cols` squares.
///
/// A board is in the result exactly if it holds one piece for each of the
/// kinds in `pieces`, each on a square of the board, no two on one square, and
/// none attacking another. For no kinds at all the result is empty.
pub fn search(rows: i8, cols: i8, pieces: &[ChessPiece]) -> (solutions: BoardSet)
    ensures
        solutions@ == Set::new(|board: BoardView| is_solution(rows, cols, pieces@, board)),
{
    let mut remaining: Vec<ChessPiece> = Vec::with_capacity(pieces.len());
    let mut i: usize = 0;
    while i < pieces.len()
        invariant
            i <= pieces.len(),
            remaining@ == pieces@.subrange(0, i as int),
        decreases pieces.len() - i,
    {
        remaining.push(pieces[i]);
        assert(remaining@ =~= pieces@.subrange(0, i + 1));
        i += 1;
    }
    assert(remaining@ =~= pieces@);
    let mut board_stack: VecDeque<SearchTask> = VecDeque::new();
    board_stack.push_back(SearchTask { board: Board::empty(rows, cols), remaining });
    let mut solutions = BoardSet::new();
    let mut tested_configurations = BoardSet::new();
    solution(&mut board_stack, &mut solutions, &mut tested_configurations);
    proof {
        let wanted = Set::new(|board: BoardView| is_solution(rows, cols, pieces@, board));
        assert forall|board: BoardView| solutions@.contains(board) <==> wanted.contains(board) by {
            lemma_reachable_is_solution(rows, cols, pieces@, board);
        }
        assert(solutions@ =~= wanted);
    }
    solutions
}

} // verus!
