//! Tests of the board-level operations: match detection, marking, clearing,
//! gravity, the cascade, the move validator, and the win and loss tests.

use match3_solver::GameBoard;
use match3_solver::Swap;
use match3_solver::calculate_gravity;
use match3_solver::check_for_loss;
use match3_solver::check_for_win;
use match3_solver::check_if_blocks_removed;
use match3_solver::check_if_valid_move;
use match3_solver::check_what_blocks_to_remove;
use match3_solver::recalculate_board;
use match3_solver::remove_given_blocks;

fn mk(rows: Vec<Vec<isize>>) -> GameBoard {
    let height = rows.len();
    let width = if height == 0 { 0 } else { rows[0].len() };
    GameBoard { height, width, board: rows }
}

#[test]
fn match_windows_horizontal() {
    let b = mk(vec![vec![1, 1, 1, 2]]);
    assert!(check_if_blocks_removed(&b, 0, 0));
    assert!(check_if_blocks_removed(&b, 0, 1));
    assert!(check_if_blocks_removed(&b, 0, 2));
    assert!(!check_if_blocks_removed(&b, 0, 3));
}

#[test]
fn match_windows_vertical() {
    let b = mk(vec![vec![3, 0], vec![3, 0], vec![3, 2]]);
    assert!(check_if_blocks_removed(&b, 0, 0));
    assert!(check_if_blocks_removed(&b, 1, 0));
    assert!(check_if_blocks_removed(&b, 2, 0));
    assert!(!check_if_blocks_removed(&b, 2, 1));
}

#[test]
fn no_match_on_equal_blockers_or_air() {
    // A match needs three equal, positive values: a line of equal blockers
    // or of empty cells is not one.
    let b = mk(vec![vec![-1, -1, -1], vec![0, 0, 0], vec![5, 5, 5]]);
    assert!(!check_if_blocks_removed(&b, 0, 0));
    assert!(!check_if_blocks_removed(&b, 0, 1));
    assert!(!check_if_blocks_removed(&b, 1, 1));
    assert!(check_if_blocks_removed(&b, 2, 1));
}

#[test]
fn no_match_when_interrupted() {
    let b = mk(vec![vec![1, 2, 1]]);
    assert!(!check_if_blocks_removed(&b, 0, 0));
    assert!(!check_if_blocks_removed(&b, 0, 1));
    assert!(!check_if_blocks_removed(&b, 0, 2));
}

#[test]
fn marking_covers_a_t_shape() {
    // A horizontal run across the top and a vertical run down the middle
    // share the cell (0,1); every cell of both runs is marked.
    let b = mk(vec![vec![7, 7, 7], vec![0, 7, 0], vec![0, 7, 0]]);
    let marks = check_what_blocks_to_remove(&b);
    let expected = vec![vec![1, 1, 1], vec![0, 1, 0], vec![0, 1, 0]];
    assert_eq!(marks, expected);
}

#[test]
fn marking_covers_a_long_run() {
    let b = mk(vec![vec![2, 2, 2, 2, 2]]);
    let marks = check_what_blocks_to_remove(&b);
    assert_eq!(marks, vec![vec![1, 1, 1, 1, 1]]);
}

#[test]
fn marking_ignores_blockers_and_air() {
    // Equal non-positive values in a row are not a match.
    let b = mk(vec![vec![-1, -1, -1], vec![0, 0, 0], vec![4, 4, 0]]);
    let marks = check_what_blocks_to_remove(&b);
    assert_eq!(marks, vec![vec![0, 0, 0], vec![0, 0, 0], vec![0, 0, 0]]);
}

#[test]
fn remove_clears_only_marked_cells() {
    let b = mk(vec![vec![1, 2], vec![3, 4]]);
    let marks = vec![vec![1, 0], vec![0, 1]];
    let r = remove_given_blocks(b, marks);
    assert_eq!(r.board, vec![vec![0, 2], vec![3, 0]]);
}

#[test]
fn gravity_drops_a_tile_to_the_bottom() {
    let b = mk(vec![vec![2], vec![0], vec![0]]);
    let r = calculate_gravity(b);
    assert_eq!(r.board, vec![vec![0], vec![0], vec![2]]);
}

#[test]
fn gravity_keeps_the_order_of_falling_tiles() {
    let b = mk(vec![vec![1], vec![2], vec![0], vec![0]]);
    let r = calculate_gravity(b);
    assert_eq!(r.board, vec![vec![0], vec![0], vec![1], vec![2]]);
}

#[test]
fn gravity_leaves_a_tile_on_a_blocker() {
    // The blocker does not move and the tile cannot pass through it.
    let b = mk(vec![vec![1], vec![-1], vec![0]]);
    let r = calculate_gravity(b);
    assert_eq!(r.board, vec![vec![1], vec![-1], vec![0]]);
}

#[test]
fn gravity_piles_tiles_above_and_below_a_blocker() {
    let b = mk(vec![vec![3], vec![4], vec![0], vec![-1], vec![5], vec![0]]);
    let r = calculate_gravity(b);
    assert_eq!(
        r.board,
        vec![vec![0], vec![3], vec![4], vec![-1], vec![0], vec![5]]
    );
}

#[test]
fn cascade_clears_and_settles() {
    let b = mk(vec![vec![4, 0, 4], vec![5, 5, 5]]);
    let r = recalculate_board(b);
    assert_eq!(r.board, vec![vec![0, 0, 0], vec![4, 0, 4]]);
}

#[test]
fn cascade_chains_twice() {
    // Clearing the sevens drops a six into place, which lines up the sixes
    // for a second round.
    let b = mk(vec![
        vec![0, 6, 0],
        vec![0, 7, 0],
        vec![6, 7, 6],
        vec![6, 7, 6],
    ]);
    let r = recalculate_board(b);
    assert_eq!(
        r.board,
        vec![vec![0, 0, 0], vec![0, 0, 0], vec![0, 0, 0], vec![6, 0, 6]]
    );
}

#[test]
fn cascade_is_idempotent_at_its_fixed_point() {
    let b = mk(vec![
        vec![0, 6, 0],
        vec![0, 7, 0],
        vec![6, 7, 6],
        vec![6, 7, 6],
    ]);
    let r1 = recalculate_board(b);
    let snapshot = r1.board.clone();
    let r2 = recalculate_board(r1);
    assert_eq!(r2.board, snapshot);
}

#[test]
fn cascade_leaves_a_stable_board_alone() {
    let b = mk(vec![vec![1, 2, 1], vec![2, 1, 2]]);
    let r = recalculate_board(b);
    assert_eq!(r.board, vec![vec![1, 2, 1], vec![2, 1, 2]]);
}

#[test]
fn validator_accepts_a_match_making_swap() {
    let mut b = mk(vec![vec![1, 1, 2], vec![2, 2, 1]]);
    let before = b.board.clone();
    let ok = check_if_valid_move(&mut b, Swap { y1: 0, x1: 2, y2: 1, x2: 2 });
    assert!(ok);
    assert_eq!(b.board, before);
}

#[test]
fn validator_rejects_a_useless_swap() {
    let mut b = mk(vec![vec![1, 2, 1, 2]]);
    let before = b.board.clone();
    let ok = check_if_valid_move(&mut b, Swap { y1: 0, x1: 1, y2: 0, x2: 2 });
    assert!(!ok);
    assert_eq!(b.board, before);
}

#[test]
fn validator_rejects_air_and_blocker_targets() {
    let mut b = mk(vec![vec![1, 1, -1], vec![1, 0, 1]]);
    let before = b.board.clone();
    assert!(!check_if_valid_move(&mut b, Swap { y1: 0, x1: 1, y2: 0, x2: 2 }));
    assert!(!check_if_valid_move(&mut b, Swap { y1: 0, x1: 1, y2: 1, x2: 1 }));
    assert_eq!(b.board, before);
}

#[test]
fn validator_rejects_out_of_bounds_targets() {
    let mut b = mk(vec![vec![1, 1]]);
    let before = b.board.clone();
    assert!(!check_if_valid_move(&mut b, Swap { y1: 0, x1: 1, y2: 0, x2: 2 }));
    assert!(!check_if_valid_move(&mut b, Swap { y1: 0, x1: 1, y2: 1, x2: 1 }));
    assert_eq!(b.board, before);
}

#[test]
fn win_ignores_air_and_blockers() {
    let b = mk(vec![vec![0, -1], vec![0, 0]]);
    assert!(check_for_win(&b));
}

#[test]
fn win_fails_on_a_remaining_tile() {
    let b = mk(vec![vec![0, 0], vec![0, 9]]);
    assert!(!check_for_win(&b));
}

#[test]
fn loss_on_a_single_tile() {
    let b = mk(vec![vec![1]]);
    assert!(check_for_loss(&b));
}

#[test]
fn loss_on_a_pair_of_the_highest_color() {
    let b = mk(vec![vec![10, 10]]);
    assert!(check_for_loss(&b));
}

#[test]
fn no_loss_on_three_of_each() {
    let b = mk(vec![vec![1, 1, 1], vec![2, 2, 2]]);
    assert!(!check_for_loss(&b));
}

#[test]
fn no_loss_on_blockers_and_air() {
    let b = mk(vec![vec![-1, -1], vec![0, 0]]);
    assert!(!check_for_loss(&b));
}
