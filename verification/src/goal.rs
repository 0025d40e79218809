//! The goal test and the cheap unsolvability test.

use vstd::prelude::*;

use crate::board::GameBoard;
use crate::board::in_grid;
use crate::matching::board_marked;
use crate::matching::hwin;
use crate::matching::vwin;

verus! {

/// The board is cleared: no tile is left.
pub open spec fn cleared(g: Seq<Seq<isize>>) -> bool {
    forall|y: int, x: int| in_grid(g, y, x) ==> #[trigger] g[y][x] <= 0
}

/// How many cells of `s` hold exactly the value `c`.
pub open spec fn color_count_row(s: Seq<isize>, c: int) -> nat
    decreases s.len(),
{
    if s.len() == 0 {
        0nat
    } else {
        (if s[0] == c {
            1nat
        } else {
            0nat
        }) + color_count_row(s.drop_first(), c)
    }
}

/// How many cells of rows `0..y` hold exactly the value `c`.
pub open spec fn color_count_rows(g: Seq<Seq<isize>>, c: int, y: int) -> nat
    decreases y,
{
    if y <= 0 {
        0nat
    } else {
        color_count_rows(g, c, y - 1) + color_count_row(g[y - 1], c)
    }
}

/// How many cells of the grid hold exactly the value `c`.
pub open spec fn color_count(g: Seq<Seq<isize>>, c: int) -> nat {
    color_count_rows(g, c, g.len() as int)
}

/// Some color occurs exactly once or twice, so that color can never be part
/// of a match of three and the board can never be cleared.
pub open spec fn loss_spec(g: Seq<Seq<isize>>) -> bool {
    exists|c: int| 1 <= c <= 10 && 1 <= #[trigger] color_count(g, c) <= 2
}

/// Appending a value raises the count of its own color by one.
pub proof fn lemma_color_count_push(s: Seq<isize>, e: isize, c: int)
    ensures
        color_count_row(s.push(e), c) == color_count_row(s, c) + (if e == c {
            1nat
        } else {
            0nat
        }),
    decreases s.len(),
{
    if s.len() == 0 {
        assert(s.push(e).drop_first() =~= Seq::<isize>::empty());
        assert(color_count_row(Seq::<isize>::empty(), c) == 0);
        assert(s.push(e)[0] == e);
    } else {
        assert(s.push(e).drop_first() =~= s.drop_first().push(e));
        lemma_color_count_push(s.drop_first(), e, c);
    }
}

/// Whether the puzzle is solved: no tile is left on the board.
pub fn check_for_win(game_board: &GameBoard) -> (r: bool)
    requires
        game_board.wf(),
    ensures
        r == cleared(game_board@),
{
    let b = game_board;
    let mut y: usize = 0;
    while y < b.height
        invariant
            b == game_board,
            b.wf(),
            y <= b.height,
            forall|i: int, j: int|
                0 <= i < y && 0 <= j < b.width ==> #[trigger] b@[i][j] <= 0,
        decreases b.height - y,
    {
        let mut x: usize = 0;
        while x < b.width
            invariant
                b == game_board,
                b.wf(),
                y < b.height,
                x <= b.width,
                forall|i: int, j: int|
                    0 <= i < y && 0 <= j < b.width ==> #[trigger] b@[i][j] <= 0,
                forall|j: int| 0 <= j < x ==> #[trigger] b@[y as int][j] <= 0,
            decreases b.width - x,
        {
            if b.get(y, x) > 0 {
                return false;
            }
            x = x + 1;
        }
        y = y + 1;
    }
    true
}

/// Whether the board is already known to be unsolvable: tally the tiles of
/// each color `1..=10` and report a loss when some color has exactly one or
/// two tiles left, since a match always removes three equal tiles.
pub fn check_for_loss(game_board: &GameBoard) -> (r: bool)
    requires
        game_board.wf(),
    ensures
        r == loss_spec(game_board@),
{
    let b = game_board;
    let ghost g = b@;
    // One slot per color; the tally is capped at three, where it stops
    // mattering.
    let mut color_counter: Vec<usize> = Vec::new();
    let mut i: usize = 0;
    while i < 11
        invariant
            color_counter@.len() == i,
            i <= 11,
            forall|c: int| 0 <= c < i ==> #[trigger] color_counter@[c] == 0usize,
        decreases 11 - i,
    {
        color_counter.push(0);
        i = i + 1;
    }
    let mut y: usize = 0;
    while y < b.height
        invariant
            b == game_board,
            b.wf(),
            g == b@,
            y <= b.height,
            color_counter@.len() == 11,
            forall|c: int|
                1 <= c <= 10 ==> #[trigger] color_counter@[c] as nat == min3(
                    color_count_rows(g, c, y as int),
                ),
        decreases b.height - y,
    {
        let mut x: usize = 0;
        while x < b.width
            invariant
                b == game_board,
                b.wf(),
                g == b@,
                y < b.height,
                x <= b.width,
                color_counter@.len() == 11,
                forall|c: int|
                    1 <= c <= 10 ==> #[trigger] color_counter@[c] as nat == min3(
                        color_count_rows(g, c, y as int) + color_count_row(
                            g[y as int].take(x as int),
                            c,
                        ),
                    ),
            decreases b.width - x,
        {
            let v = b.get(y, x);
            if v > 0 {
                let ci = v as usize;
                let cur = color_counter[ci];
                if cur < 3 {
                    color_counter.set(ci, cur + 1);
                }
            }
            proof {
                assert(g[y as int].take(x as int + 1) =~= g[y as int].take(x as int).push(
                    g[y as int][x as int],
                ));
                assert forall|c: int| 1 <= c <= 10 implies #[trigger] color_count_row(
                    g[y as int].take(x as int + 1),
                    c,
                ) == color_count_row(g[y as int].take(x as int), c) + (if g[y as int][x as int]
                    == c {
                    1nat
                } else {
                    0nat
                }) by {
                    lemma_color_count_push(g[y as int].take(x as int), g[y as int][x as int], c);
                }
            }
            x = x + 1;
        }
        proof {
            assert(g[y as int].take(b.width as int) =~= g[y as int]);
        }
        y = y + 1;
    }
    // A capped tally of one or two is an exact count of one or two.
    let mut c: usize = 1;
    while c < 11
        invariant
            color_counter@.len() == 11,
            1 <= c <= 11,
            forall|k: int|
                1 <= k <= 10 ==> #[trigger] color_counter@[k] as nat == min3(color_count(g, k)),
            forall|k: int| 1 <= k < c ==> !(1 <= #[trigger] color_count(g, k) <= 2),
            b == game_board,
            g == b@,
        decreases 11 - c,
    {
        let n = color_counter[c];
        if n == 1 || n == 2 {
            proof {
                assert(1 <= color_count(g, c as int) <= 2);
            }
            return true;
        }
        c = c + 1;
    }
    false
}


/// Color counts distribute over concatenation.
pub proof fn lemma_color_count_add(a: Seq<isize>, b: Seq<isize>, c: int)
    ensures
        color_count_row(a + b, c) == color_count_row(a, c) + color_count_row(b, c),
    decreases a.len(),
{
    if a.len() == 0 {
        assert(a + b =~= b);
    } else {
        assert((a + b)[0] == a[0]);
        assert((a + b).drop_first() =~= a.drop_first() + b);
        lemma_color_count_add(a.drop_first(), b, c);
    }
}

/// Replacing one value changes a row's color count by the two indicators.
pub proof fn lemma_color_row_update(s: Seq<isize>, i: int, v: isize, c: int)
    requires
        0 <= i < s.len(),
    ensures
        color_count_row(s.update(i, v), c) + (if s[i] == c {
            1nat
        } else {
            0nat
        }) == color_count_row(s, c) + (if v == c {
            1nat
        } else {
            0nat
        }),
    decreases i,
{
    if i == 0 {
        assert(s.update(0, v).drop_first() =~= s.drop_first());
    } else {
        assert(s.update(i, v).drop_first() =~= s.drop_first().update(i - 1, v));
        lemma_color_row_update(s.drop_first(), i - 1, v, c);
    }
}

/// Counts over the first `y` rows see only those rows.
pub proof fn lemma_color_rows_agree(g: Seq<Seq<isize>>, g2: Seq<Seq<isize>>, c: int, y: int)
    requires
        forall|k: int| 0 <= k < y ==> #[trigger] g2[k] == g[k],
    ensures
        color_count_rows(g2, c, y) == color_count_rows(g, c, y),
    decreases y,
{
    if y > 0 {
        lemma_color_rows_agree(g, g2, c, y - 1);
    }
}

/// Counting more rows never counts less.
pub proof fn lemma_color_rows_mono(g: Seq<Seq<isize>>, c: int, y1: int, y2: int)
    requires
        y1 <= y2,
    ensures
        color_count_rows(g, c, y1) <= color_count_rows(g, c, y2),
    decreases y2 - y1,
{
    if y1 < y2 {
        lemma_color_rows_mono(g, c, y1, y2 - 1);
    }
}

/// A row that holds `c` at position `i` counts it.
pub proof fn lemma_row_has_color(s: Seq<isize>, c: int, i: int)
    requires
        0 <= i < s.len(),
        s[i] == c,
    ensures
        color_count_row(s, c) >= 1,
{
    assert(s =~= s.take(i) + seq![s[i]] + s.skip(i + 1));
    lemma_color_count_add(s.take(i) + seq![s[i]], s.skip(i + 1), c);
    lemma_color_count_add(s.take(i), seq![s[i]], c);
    assert(color_count_row(seq![s[i]], c) >= 1) by {
        reveal_with_fuel(color_count_row, 3);
        assert(seq![s[i]].drop_first() =~= Seq::<isize>::empty());
    }
}

/// A row that holds `c` at three positions counts all three.
pub proof fn lemma_row_triple_color(s: Seq<isize>, c: int, i: int)
    requires
        0 <= i,
        i + 2 < s.len(),
        s[i] == c,
        s[i + 1] == c,
        s[i + 2] == c,
    ensures
        color_count_row(s, c) >= 3,
{
    assert(s =~= s.take(i) + seq![s[i], s[i + 1], s[i + 2]] + s.skip(i + 3));
    lemma_color_count_add(s.take(i) + seq![s[i], s[i + 1], s[i + 2]], s.skip(i + 3), c);
    lemma_color_count_add(s.take(i), seq![s[i], s[i + 1], s[i + 2]], c);
    assert(color_count_row(seq![s[i], s[i + 1], s[i + 2]], c) >= 3) by {
        reveal_with_fuel(color_count_row, 5);
        assert(seq![s[i], s[i + 1], s[i + 2]].drop_first() =~= seq![s[i + 1], s[i + 2]]);
        assert(seq![s[i + 1], s[i + 2]].drop_first() =~= seq![s[i + 2]]);
        assert(seq![s[i + 2]].drop_first() =~= Seq::<isize>::empty());
    }
}

/// Two grids whose rows agree except at row `y` have color counts that
/// differ exactly by those two rows.
pub proof fn lemma_color_rows_split(g: Seq<Seq<isize>>, g2: Seq<Seq<isize>>, c: int, y: int, h: int)
    requires
        0 <= y < h,
        forall|k: int| 0 <= k < h && k != y ==> #[trigger] g2[k] == g[k],
    ensures
        color_count_rows(g2, c, h) + color_count_row(g[y], c) == color_count_rows(g, c, h)
            + color_count_row(g2[y], c),
    decreases h,
{
    if y == h - 1 {
        lemma_color_rows_agree(g, g2, c, h - 1);
    } else {
        lemma_color_rows_split(g, g2, c, y, h - 1);
    }
}

/// Writing `v` into cell `(y, x)` changes the color count by the two
/// indicators.
pub proof fn lemma_color_count_update(g: Seq<Seq<isize>>, y: int, x: int, v: isize, c: int)
    requires
        0 <= y < g.len(),
        0 <= x < g[y].len(),
    ensures
        color_count(g.update(y, g[y].update(x, v)), c) + (if g[y][x] == c {
            1nat
        } else {
            0nat
        }) == color_count(g, c) + (if v == c {
            1nat
        } else {
            0nat
        }),
{
    let g2 = g.update(y, g[y].update(x, v));
    lemma_color_rows_split(g, g2, c, y, g.len() as int);
    lemma_color_row_update(g[y], x, v, c);
}


/// A row whose cells all differ from `c` counts none of it, and a cleared
/// grid counts no color at all.
pub proof fn lemma_row_color_zero(s: Seq<isize>, c: int)
    requires
        forall|i: int| 0 <= i < s.len() ==> (#[trigger] s[i]) != c,
    ensures
        color_count_row(s, c) == 0,
    decreases s.len(),
{
    if s.len() > 0 {
        assert(forall|i: int| 0 <= i < s.drop_first().len() ==> (#[trigger] s.drop_first()[i]) == s[i + 1]);
        lemma_row_color_zero(s.drop_first(), c);
    }
}

/// A cleared grid holds no tile of any color.
pub proof fn lemma_cleared_color_zero(g: Seq<Seq<isize>>, c: int)
    requires
        cleared(g),
        c >= 1,
    ensures
        color_count(g, c) == 0,
{
    lemma_cleared_rows_zero(g, c, g.len() as int);
}

proof fn lemma_cleared_rows_zero(g: Seq<Seq<isize>>, c: int, y: int)
    requires
        cleared(g),
        c >= 1,
        y <= g.len(),
    ensures
        color_count_rows(g, c, y) == 0,
    decreases y,
{
    if y > 0 {
        lemma_cleared_rows_zero(g, c, y - 1);
        assert forall|i: int| 0 <= i < g[y - 1].len() implies (#[trigger] g[y - 1][i]) != c by {
            assert(in_grid(g, y - 1, i));
        }
        lemma_row_color_zero(g[y - 1], c);
    }
}

/// Three cells of one column hold `c` in consecutive rows: the grid counts
/// at least three of that color.
proof fn lemma_vertical_triple_color(g: Seq<Seq<isize>>, c: int, y: int, x: int)
    requires
        0 <= y,
        y + 2 < g.len(),
        0 <= x,
        x < g[y].len(),
        x < g[y + 1].len(),
        x < g[y + 2].len(),
        g[y][x] == c,
        g[y + 1][x] == c,
        g[y + 2][x] == c,
    ensures
        color_count(g, c) >= 3,
{
    lemma_row_has_color(g[y], c, x);
    lemma_row_has_color(g[y + 1], c, x);
    lemma_row_has_color(g[y + 2], c, x);
    assert(color_count_rows(g, c, y) >= 0);
    assert(color_count_rows(g, c, y + 1) == color_count_rows(g, c, y) + color_count_row(g[y], c));
    assert(color_count_rows(g, c, y + 2) == color_count_rows(g, c, y + 1) + color_count_row(
        g[y + 1],
        c,
    ));
    assert(color_count_rows(g, c, y + 3) == color_count_rows(g, c, y + 2) + color_count_row(
        g[y + 2],
        c,
    ));
    lemma_color_rows_mono(g, c, y + 3, g.len() as int);
}

/// A row of the grid that counts `k` makes the grid count at least `k`.
proof fn lemma_grid_counts_row(g: Seq<Seq<isize>>, c: int, y: int)
    requires
        0 <= y < g.len(),
    ensures
        color_count(g, c) >= color_count_row(g[y], c),
{
    assert(color_count_rows(g, c, y + 1) == color_count_rows(g, c, y) + color_count_row(g[y], c));
    lemma_color_rows_mono(g, c, y + 1, g.len() as int);
}

/// A marked cell always belongs to a window of three tiles of its own
/// color, so that color occurs at least three times on the board.
pub proof fn lemma_marked_color_big(g: Seq<Seq<isize>>, y: int, x: int)
    requires
        board_marked(g, y, x),
    ensures
        color_count(g, g[y][x] as int) >= 3,
{
    let c = g[y][x] as int;
    if vwin(g, y - 2, x) {
        lemma_vertical_triple_color(g, c, y - 2, x);
    } else if vwin(g, y - 1, x) {
        lemma_vertical_triple_color(g, c, y - 1, x);
    } else if vwin(g, y, x) {
        lemma_vertical_triple_color(g, c, y, x);
    } else if hwin(g, y, x - 2) {
        lemma_row_triple_color(g[y], c, x - 2);
        lemma_grid_counts_row(g, c, y);
    } else if hwin(g, y, x - 1) {
        lemma_row_triple_color(g[y], c, x - 1);
        lemma_grid_counts_row(g, c, y);
    } else {
        lemma_row_triple_color(g[y], c, x);
        lemma_grid_counts_row(g, c, y);
    }
}

/// Rows with pointwise equal counts give grids with equal counts.
pub proof fn lemma_color_rows_eq(g: Seq<Seq<isize>>, g2: Seq<Seq<isize>>, c: int, y: int)
    requires
        forall|k: int|
            0 <= k < y ==> color_count_row(#[trigger] g2[k], c) == color_count_row(g[k], c),
    ensures
        color_count_rows(g2, c, y) == color_count_rows(g, c, y),
    decreases y,
{
    if y > 0 {
        lemma_color_rows_eq(g, g2, c, y - 1);
    }
}

/// Rows that hold `c` at exactly the same positions count it alike.
pub proof fn lemma_row_color_equiv(s: Seq<isize>, s2: Seq<isize>, c: int)
    requires
        s2.len() == s.len(),
        forall|i: int| 0 <= i < s.len() ==> ((#[trigger] s2[i]) == c <==> s[i] == c),
    ensures
        color_count_row(s2, c) == color_count_row(s, c),
    decreases s.len(),
{
    if s.len() > 0 {
        assert(forall|i: int|
            0 <= i < s.drop_first().len() ==> (#[trigger] s.drop_first()[i]) == s[i + 1]
                && s2.drop_first()[i] == s2[i + 1]);
        lemma_row_color_equiv(s.drop_first(), s2.drop_first(), c);
    }
}

/// The capped tally: counts above three all look alike to the loss test.
pub open spec fn min3(n: nat) -> nat {
    if n >= 3 {
        3nat
    } else {
        n
    }
}

} // verus!
