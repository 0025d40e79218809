//! End-to-end tests of the solver.

use match3_solver::GameBoard;
use match3_solver::Swap;
use match3_solver::execute_move;
use match3_solver::solve;
use match3_solver::solve_board;

fn mk(rows: Vec<Vec<isize>>) -> GameBoard {
    let height = rows.len();
    let width = if height == 0 { 0 } else { rows[0].len() };
    GameBoard { height, width, board: rows }
}

#[test]
fn already_solved_column() {
    // A 3x1 column of equal tiles resolves by itself: no swap is needed.
    let b = mk(vec![vec![1], vec![1], vec![1]]);
    let r = solve_board(b);
    assert!(r.is_some());
    assert!(r.unwrap().is_empty());
}

#[test]
fn empty_board_is_solved() {
    let b = mk(vec![vec![0, 0], vec![0, 0]]);
    let r = solve_board(b);
    assert!(r.is_some());
    assert!(r.unwrap().is_empty());
}

#[test]
fn zero_size_board_is_solved() {
    let b = mk(vec![]);
    let r = solve_board(b);
    assert!(r.is_some());
    assert!(r.unwrap().is_empty());
}

#[test]
fn board_of_blockers_is_solved() {
    let b = mk(vec![vec![-1, 0], vec![0, -1]]);
    let r = solve_board(b);
    assert!(r.is_some());
    assert!(r.unwrap().is_empty());
}

#[test]
fn impossible_row() {
    // Swapping (0,1) and (0,2) gives [1,1,2,2]: no match forms, no other
    // candidate exists, so the puzzle is impossible.
    let b = mk(vec![vec![1, 2, 1, 2]]);
    let r = solve_board(b);
    assert!(r.is_none());
}

#[test]
fn one_swap_double_match() {
    // Swapping (0,2) with (1,2) turns the board into [[1,1,1],[2,2,2]],
    // which cascades to empty.
    let b = mk(vec![vec![1, 1, 2], vec![2, 2, 1]]);
    let r = solve_board(b).expect("the board is solvable in one swap");
    assert_eq!(r.len(), 1);
    assert_eq!((r[0].y1, r[0].x1, r[0].y2, r[0].x2), (0, 2, 1, 2));
}

#[test]
fn one_swap_in_column() {
    // Swapping rows 2 and 3 of the column [1,1,2,1,2,2] lines up both
    // colors at once.
    let b = mk(vec![vec![1], vec![1], vec![2], vec![1], vec![2], vec![2]]);
    let r = solve_board(b).expect("the board is solvable in one swap");
    assert_eq!(r.len(), 1);
    assert_eq!((r[0].y1, r[0].x1, r[0].y2, r[0].x2), (2, 0, 3, 0));
}

#[test]
fn two_swap_solution() {
    // One swap clears the top two rows, and a second clears the rest.
    let b = mk(vec![
        vec![1, 1, 2],
        vec![2, 2, 1],
        vec![3, 3, 4],
        vec![4, 4, 3],
    ]);
    let r = solve_board(b).expect("the board is solvable in two swaps");
    assert_eq!(r.len(), 2);
    assert_eq!((r[0].y1, r[0].x1, r[0].y2, r[0].x2), (0, 2, 1, 2));
    assert_eq!((r[1].y1, r[1].x1, r[1].y2, r[1].x2), (2, 2, 3, 2));
}

#[test]
fn lone_tile_is_a_loss() {
    let b = mk(vec![vec![0, 3, 0]]);
    assert!(solve_board(b).is_none());
}

#[test]
fn pair_is_a_loss() {
    let b = mk(vec![vec![1, 1, 0]]);
    assert!(solve_board(b).is_none());
    let b2 = mk(vec![vec![1, 1, 0]]);
    assert!(solve(b2, Vec::new()).is_none());
}

#[test]
fn execute_move_reports_the_solution() {
    let b = mk(vec![vec![1, 1, 2], vec![2, 2, 1]]);
    let swap = Swap { y1: 0, x1: 2, y2: 1, x2: 2 };
    let r = execute_move(b, swap, Vec::new()).expect("the swap solves the board");
    assert_eq!(r.len(), 1);
    assert_eq!((r[0].y1, r[0].x1, r[0].y2, r[0].x2), (0, 2, 1, 2));
}

#[test]
fn execute_move_keeps_the_prefix() {
    let b = mk(vec![vec![1, 1, 2], vec![2, 2, 1]]);
    let earlier = Swap { y1: 0, x1: 0, y2: 0, x2: 1 };
    let swap = Swap { y1: 0, x1: 2, y2: 1, x2: 2 };
    let r = execute_move(b, swap, vec![earlier]).expect("the swap solves the board");
    assert_eq!(r.len(), 2);
    assert_eq!((r[0].y1, r[0].x1, r[0].y2, r[0].x2), (0, 0, 0, 1));
    assert_eq!((r[1].y1, r[1].x1, r[1].y2, r[1].x2), (0, 2, 1, 2));
}

#[test]
fn blocker_board_with_solution() {
    // Swapping (2,0) with (2,1) lines up both columns at once; the bottom
    // row of blockers stays and does not keep the board from clearing.
    let b = mk(vec![vec![3, 4], vec![3, 4], vec![4, 3], vec![-1, -1]]);
    let r = solve_board(b).expect("the board is solvable in one swap");
    assert_eq!(r.len(), 1);
    assert_eq!((r[0].y1, r[0].x1, r[0].y2, r[0].x2), (2, 0, 2, 1));
}

#[test]
fn blocker_board_exhausts_to_none() {
    // Three tiles of one color, but the blocker pins them so that no swap
    // ever lines them up: the search exhausts every branch.
    let b = mk(vec![vec![-1, 7, 0], vec![7, 7, 0]]);
    assert!(solve_board(b).is_none());
}
