//! Match detection: single-cell match windows and the whole-board marking
//! pass that computes the set of cells to clear.

use vstd::prelude::*;

use crate::board::GameBoard;
use crate::board::in_grid;

verus! {

/// Three equal tiles stand in column `x`, rows `y`, `y+1`, `y+2`.  A match
/// needs three equal, positive values: equal blockers or empty cells are
/// no match.
pub open spec fn vwin(g: Seq<Seq<isize>>, y: int, x: int) -> bool {
    &&& 0 <= y
    &&& y + 2 < g.len()
    &&& 0 <= x
    &&& x < g[y].len()
    &&& x < g[y + 1].len()
    &&& x < g[y + 2].len()
    &&& g[y][x] > 0
    &&& g[y][x] == g[y + 1][x]
    &&& g[y + 1][x] == g[y + 2][x]
}

/// Three equal tiles stand in row `y`, columns `x`, `x+1`, `x+2`.
pub open spec fn hwin(g: Seq<Seq<isize>>, y: int, x: int) -> bool {
    &&& 0 <= y
    &&& y < g.len()
    &&& 0 <= x
    &&& x + 2 < g[y].len()
    &&& g[y][x] > 0
    &&& g[y][x] == g[y][x + 1]
    &&& g[y][x + 1] == g[y][x + 2]
}

/// The cell `(y, x)` lies in one of the six windows of three equal tiles
/// through it: three vertical and three horizontal.
pub open spec fn matched_at(g: Seq<Seq<isize>>, y: int, x: int) -> bool {
    ||| vwin(g, y - 2, x)
    ||| vwin(g, y - 1, x)
    ||| vwin(g, y, x)
    ||| hwin(g, y, x - 2)
    ||| hwin(g, y, x - 1)
    ||| hwin(g, y, x)
}

/// The cell `(y, x)` is covered by some window of the marking pass.  Every
/// window names a tile as its top or left cell, which is exactly the anchor
/// the row-major scan tests, so the marked cells are the matched cells.
pub open spec fn board_marked(g: Seq<Seq<isize>>, y: int, x: int) -> bool {
    matched_at(g, y, x)
}

/// Some cell of the grid is marked for removal.
pub open spec fn has_marks(g: Seq<Seq<isize>>) -> bool {
    exists|y: int, x: int| board_marked(g, y, x)
}

/// A marked cell is a tile.
pub proof fn lemma_marked_positive(g: Seq<Seq<isize>>, y: int, x: int)
    requires
        board_marked(g, y, x),
    ensures
        in_grid(g, y, x),
        g[y][x] > 0,
{
}

/// Every cell of a vertical run of three or more equal tiles is marked:
/// some anchor of the run covers it.
pub proof fn lemma_vertical_run_marked(g: Seq<Seq<isize>>, y0: int, len: int, y: int, x: int)
    requires
        0 <= y0,
        y0 + len <= g.len(),
        len >= 3,
        forall|i: int| y0 <= i < y0 + len ==> 0 <= x < (#[trigger] g[i]).len(),
        forall|i: int| y0 <= i < y0 + len ==> #[trigger] g[i][x] == g[y0][x],
        g[y0][x] > 0,
        y0 <= y < y0 + len,
    ensures
        board_marked(g, y, x),
{
    let a = if y <= y0 + len - 3 {
        if y0 <= y {
            y
        } else {
            y0
        }
    } else {
        y0 + len - 3
    };
    assert(vwin(g, a, x));
    assert(a == y || a == y - 1 || a == y - 2);
}

/// Every cell of a horizontal run of three or more equal tiles is marked.
pub proof fn lemma_horizontal_run_marked(g: Seq<Seq<isize>>, y: int, x0: int, len: int, x: int)
    requires
        0 <= y < g.len(),
        0 <= x0,
        x0 + len <= g[y].len(),
        len >= 3,
        forall|j: int| x0 <= j < x0 + len ==> #[trigger] g[y][j] == g[y][x0],
        g[y][x0] > 0,
        x0 <= x < x0 + len,
    ensures
        board_marked(g, y, x),
{
    let a = if x <= x0 + len - 3 {
        if x0 <= x {
            x
        } else {
            x0
        }
    } else {
        x0 + len - 3
    };
    assert(hwin(g, y, a));
    assert(a == x || a == x - 1 || a == x - 2);
}

/// Whether the cell at `(y, x)` is part of some removable match: it lies in
/// one of the six windows of three equal tiles through it.
///
/// Relied on by the move validator at the two swapped cells.
pub fn check_if_blocks_removed(game_board: &GameBoard, y: usize, x: usize) -> (r: bool)
    requires
        game_board.wf(),
        y < game_board.height,
        x < game_board.width,
    ensures
        r == matched_at(game_board@, y as int, x as int),
{
    let b = game_board;
    // A match is three equal tiles: a blocker or an empty cell is never
    // part of one, however its neighbours read.
    if b.get(y, x) < 1 {
        proof {
            assert(!matched_at(b@, y as int, x as int));
        }
        return false;
    }
    // The two cells above.
    if y >= 2 {
        if b.get(y - 2, x) == b.get(y - 1, x) && b.get(y - 1, x) == b.get(y, x) {
            return true;
        }
    }
    // One above, one below.
    if y >= 1 && b.height - y > 1 {
        if b.get(y - 1, x) == b.get(y, x) && b.get(y, x) == b.get(y + 1, x) {
            return true;
        }
    }
    // The two cells below.
    if b.height - y > 2 {
        if b.get(y, x) == b.get(y + 1, x) && b.get(y + 1, x) == b.get(y + 2, x) {
            return true;
        }
    }
    // The two cells to the left.
    if x >= 2 {
        if b.get(y, x - 2) == b.get(y, x - 1) && b.get(y, x - 1) == b.get(y, x) {
            return true;
        }
    }
    // One to the left, one to the right.
    if x >= 1 && b.width - x > 1 {
        if b.get(y, x - 1) == b.get(y, x) && b.get(y, x) == b.get(y, x + 1) {
            return true;
        }
    }
    // The two cells to the right.
    if b.width - x > 2 {
        if b.get(y, x) == b.get(y, x + 1) && b.get(y, x + 1) == b.get(y, x + 2) {
            return true;
        }
    }
    false
}

/// The anchor `(ay, ax)` comes before `(y, x)` in row-major order.
pub open spec fn prior(ay: int, ax: int, y: int, x: int) -> bool {
    ay < y || (ay == y && ax < x)
}

/// The cell `(cy, cx)` is covered by an anchor the scan has already visited,
/// the scan standing at `(y, x)`.
pub open spec fn marked_upto(g: Seq<Seq<isize>>, cy: int, cx: int, y: int, x: int) -> bool {
    ||| (vwin(g, cy - 2, cx) && prior(cy - 2, cx, y, x))
    ||| (vwin(g, cy - 1, cx) && prior(cy - 1, cx, y, x))
    ||| (vwin(g, cy, cx) && prior(cy, cx, y, x))
    ||| (hwin(g, cy, cx - 2) && prior(cy, cx - 2, y, x))
    ||| (hwin(g, cy, cx - 1) && prior(cy, cx - 1, y, x))
    ||| (hwin(g, cy, cx) && prior(cy, cx, y, x))
}

/// Write `1` into the mark grid at `(y, x)`.
fn put_mark(m: &mut Vec<Vec<usize>>, y: usize, x: usize)
    requires
        y < old(m)@.len(),
        x < old(m)@[y as int]@.len(),
    ensures
        final(m)@.len() == old(m)@.len(),
        forall|i: int|
            0 <= i < old(m)@.len() ==> (#[trigger] final(m)@[i])@.len() == old(m)@[i]@.len(),
        forall|i: int, j: int|
            0 <= i < old(m)@.len() && 0 <= j < old(m)@[i]@.len()
                ==> #[trigger] (final(m)@[i]@[j]) == if i == y && j == x {
                1usize
            } else {
                old(m)@[i]@[j]
            },
{
    let mut row: Vec<usize> = m.remove(y);
    row.set(x, 1);
    m.insert(y, row);
}

/// The whole-board marking pass: scan the grid in row-major order and, at
/// each tile, test the forward vertical and horizontal windows; when one
/// matches, mark all three of its cells.  The result holds `1` exactly at
/// the cells that belong to some anchored window.
pub fn check_what_blocks_to_remove(game_board: &GameBoard) -> (marks: Vec<Vec<usize>>)
    requires
        game_board.wf(),
    ensures
        marks@.len() == game_board.height,
        forall|y: int|
            0 <= y < game_board.height ==> (#[trigger] marks@[y])@.len() == game_board.width,
        forall|y: int, x: int|
            0 <= y < game_board.height && 0 <= x < game_board.width ==> (#[trigger] marks@[y]@[x])
                == if board_marked(game_board@, y, x) {
                1usize
            } else {
                0usize
            },
{
    let b = game_board;
    let ghost g = b@;
    let mut marks: Vec<Vec<usize>> = Vec::new();
    let mut y: usize = 0;
    while y < b.height
        invariant
            y <= b.height,
            marks@.len() == y,
            forall|i: int| 0 <= i < y ==> (#[trigger] marks@[i])@.len() == b.width,
            forall|i: int, j: int|
                0 <= i < y && 0 <= j < b.width ==> (#[trigger] marks@[i]@[j]) == 0usize,
        decreases b.height - y,
    {
        let mut row: Vec<usize> = Vec::new();
        let mut x: usize = 0;
        while x < b.width
            invariant
                x <= b.width,
                row@.len() == x,
                forall|j: int| 0 <= j < x ==> (#[trigger] row@[j]) == 0usize,
            decreases b.width - x,
        {
            row.push(0);
            x = x + 1;
        }
        marks.push(row);
        y = y + 1;
    }
    let mut y: usize = 0;
    while y < b.height
        invariant
            b.wf(),
            g == b@,
            y <= b.height,
            marks@.len() == b.height,
            forall|i: int| 0 <= i < b.height ==> (#[trigger] marks@[i])@.len() == b.width,
            forall|cy: int, cx: int|
                0 <= cy < b.height && 0 <= cx < b.width ==> (#[trigger] marks@[cy]@[cx])
                    == if marked_upto(g, cy, cx, y as int, 0) {
                    1usize
                } else {
                    0usize
                },
        decreases b.height - y,
    {
        let mut x: usize = 0;
        while x < b.width
            invariant
                b.wf(),
                g == b@,
                y < b.height,
                x <= b.width,
                marks@.len() == b.height,
                forall|i: int| 0 <= i < b.height ==> (#[trigger] marks@[i])@.len() == b.width,
                forall|cy: int, cx: int|
                    0 <= cy < b.height && 0 <= cx < b.width ==> (#[trigger] marks@[cy]@[cx])
                        == if marked_upto(g, cy, cx, y as int, x as int) {
                        1usize
                    } else {
                        0usize
                    },
            decreases b.width - x,
        {
            if b.get(y, x) > 0 {
                // The forward vertical window: this cell and the two below.
                if b.height - y > 2 {
                    if b.get(y + 2, x) == b.get(y + 1, x) && b.get(y + 1, x) == b.get(y, x) {
                        put_mark(&mut marks, y + 2, x);
                        put_mark(&mut marks, y + 1, x);
                        put_mark(&mut marks, y, x);
                        assert(vwin(g, y as int, x as int));
                    }
                }
                // The forward horizontal window: this cell and the two to the right.
                if b.width - x > 2 {
                    if b.get(y, x) == b.get(y, x + 1) && b.get(y, x + 1) == b.get(y, x + 2) {
                        put_mark(&mut marks, y, x);
                        put_mark(&mut marks, y, x + 1);
                        put_mark(&mut marks, y, x + 2);
                        assert(hwin(g, y as int, x as int));
                    }
                }
            }
            assert forall|cy: int, cx: int|
                0 <= cy < b.height && 0 <= cx < b.width implies (#[trigger] marks@[cy]@[cx])
                == if marked_upto(g, cy, cx, y as int, x as int + 1) {
                1usize
            } else {
                0usize
            } by {
                assert(marked_upto(g, cy, cx, y as int, x as int + 1) <==> (marked_upto(
                    g,
                    cy,
                    cx,
                    y as int,
                    x as int,
                ) || (vwin(g, y as int, x as int) && cx == x && y <= cy <= y + 2) || (hwin(
                    g,
                    y as int,
                    x as int,
                ) && cy == y && x <= cx <= x + 2)));
            }
            x = x + 1;
        }
        proof {
            assert forall|cy: int, cx: int|
                0 <= cy < b.height && 0 <= cx < b.width implies (marked_upto(
                g,
                cy,
                cx,
                y as int,
                b.width as int,
            ) <==> marked_upto(g, cy, cx, y as int + 1, 0)) by {}
        }
        y = y + 1;
    }
    proof {
        assert forall|cy: int, cx: int|
            0 <= cy < b.height && 0 <= cx < b.width implies (marked_upto(
            g,
            cy,
            cx,
            b.height as int,
            0,
        ) <==> board_marked(g, cy, cx)) by {}
    }
    marks
}

} // verus!
