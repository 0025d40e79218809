//! Counting positive cells.
//!
//! The count of positive (tile) cells is the measure that makes everything
//! terminate: every cascade pass removes at least one tile and gravity only
//! moves tiles around, so the count falls strictly with each executed move.
//! The count is taken column by column, because gravity acts on columns.

use vstd::prelude::*;

verus! {

/// 1 for a tile cell, 0 for air or a blocker.
pub open spec fn pos_ind(v: isize) -> nat {
    if v > 0 {
        1nat
    } else {
        0nat
    }
}

/// The subsequence of positive values of `s`, in order.
pub open spec fn pos_seq(s: Seq<isize>) -> Seq<isize>
    decreases s.len(),
{
    if s.len() == 0 {
        Seq::empty()
    } else if s[0] > 0 {
        seq![s[0]] + pos_seq(s.drop_first())
    } else {
        pos_seq(s.drop_first())
    }
}

/// How many values of `s` are positive.
pub open spec fn pos_count(s: Seq<isize>) -> nat
    decreases s.len(),
{
    if s.len() == 0 {
        0nat
    } else {
        pos_ind(s[0]) + pos_count(s.drop_first())
    }
}

/// Column `x` of the grid, from top to bottom.
pub open spec fn col(g: Seq<Seq<isize>>, x: int) -> Seq<isize> {
    Seq::new(g.len(), |y: int| g[y][x])
}

/// The width a rectangular grid presents: the length of its first row.
pub open spec fn gwidth(g: Seq<Seq<isize>>) -> int {
    if g.len() == 0 {
        0
    } else {
        g[0].len() as int
    }
}

/// Positive cells in columns `0..x`.
pub open spec fn count_cols(g: Seq<Seq<isize>>, x: int) -> nat
    decreases x,
{
    if x <= 0 {
        0nat
    } else {
        count_cols(g, x - 1) + pos_count(col(g, x - 1))
    }
}

/// How many positive cells the grid holds.
pub open spec fn count_pos(g: Seq<Seq<isize>>) -> nat {
    count_cols(g, gwidth(g))
}

/// How far the positive values of `s` can still fall: the value at index `i`
/// contributes the number of places below it.
pub open spec fn fall_pot(s: Seq<isize>) -> nat
    decreases s.len(),
{
    if s.len() == 0 {
        0nat
    } else {
        (if s[0] > 0 {
            (s.len() - 1) as nat
        } else {
            0nat
        }) + fall_pot(s.drop_first())
    }
}

/// Fall potential of columns `0..x`.
pub open spec fn pot_cols(g: Seq<Seq<isize>>, x: int) -> nat
    decreases x,
{
    if x <= 0 {
        0nat
    } else {
        pot_cols(g, x - 1) + fall_pot(col(g, x - 1))
    }
}

/// Fall potential of the whole grid: it falls strictly with each gravity move.
pub open spec fn grid_pot(g: Seq<Seq<isize>>) -> nat {
    pot_cols(g, gwidth(g))
}

/// The number of positive values is the length of the positive subsequence.
pub proof fn lemma_pos_count_is_len(s: Seq<isize>)
    ensures
        pos_count(s) == pos_seq(s).len(),
    decreases s.len(),
{
    if s.len() > 0 {
        lemma_pos_count_is_len(s.drop_first());
    }
}

/// Replacing one value changes the positive count by the two indicators.
pub proof fn lemma_pos_count_update(s: Seq<isize>, i: int, v: isize)
    requires
        0 <= i < s.len(),
    ensures
        pos_count(s.update(i, v)) + pos_ind(s[i]) == pos_count(s) + pos_ind(v),
    decreases i,
{
    if i == 0 {
        assert(s.update(0, v).drop_first() =~= s.drop_first());
    } else {
        assert(s.update(i, v).drop_first() =~= s.drop_first().update(i - 1, v));
        lemma_pos_count_update(s.drop_first(), i - 1, v);
    }
}

/// Replacing one value changes the fall potential by the two weighted
/// indicators.
pub proof fn lemma_fall_pot_update(s: Seq<isize>, i: int, v: isize)
    requires
        0 <= i < s.len(),
    ensures
        fall_pot(s.update(i, v)) + (if s[i] > 0 {
            s.len() - 1 - i
        } else {
            0
        }) == fall_pot(s) + (if v > 0 {
            s.len() - 1 - i
        } else {
            0
        }),
    decreases i,
{
    if i == 0 {
        assert(s.update(0, v).drop_first() =~= s.drop_first());
    } else {
        assert(s.update(i, v).drop_first() =~= s.drop_first().update(i - 1, v));
        lemma_fall_pot_update(s.drop_first(), i - 1, v);
    }
}

/// The positive subsequence distributes over concatenation.
pub proof fn lemma_pos_seq_add(a: Seq<isize>, b: Seq<isize>)
    ensures
        pos_seq(a + b) == pos_seq(a) + pos_seq(b),
    decreases a.len(),
{
    if a.len() == 0 {
        assert(a + b =~= b);
        assert(pos_seq(a) + pos_seq(b) =~= pos_seq(b));
    } else {
        assert((a + b).len() > 0);
        assert((a + b)[0] == a[0]);
        assert((a + b).drop_first() =~= a.drop_first() + b);
        lemma_pos_seq_add(a.drop_first(), b);
        if a[0] > 0 {
            assert(seq![a[0]] + (pos_seq(a.drop_first()) + pos_seq(b)) =~= (seq![a[0]] + pos_seq(
                a.drop_first(),
            )) + pos_seq(b));
        }
    }
}

/// Letting a tile fall one place past air keeps the column's positive values
/// and their order.
pub proof fn lemma_move_down_pos_seq(s: Seq<isize>, i: int)
    requires
        0 <= i,
        i + 1 < s.len(),
        s[i] > 0,
        s[i + 1] == 0,
    ensures
        pos_seq(s.update(i, 0).update(i + 1, s[i])) == pos_seq(s),
{
    let v = s[i];
    let t = s.update(i, 0).update(i + 1, v);
    let pre = s.take(i);
    let post = s.skip(i + 2);
    let mid_s = seq![v, 0isize];
    let mid_t = seq![0isize, v];
    assert(s =~= pre + mid_s + post);
    assert(t =~= pre + mid_t + post);
    lemma_pos_seq_add(pre + mid_s, post);
    lemma_pos_seq_add(pre, mid_s);
    lemma_pos_seq_add(pre + mid_t, post);
    lemma_pos_seq_add(pre, mid_t);
    assert(pos_seq(mid_s) == seq![v]) by {
        reveal_with_fuel(pos_seq, 4);
        assert(mid_s.drop_first() =~= seq![0isize]);
        assert(seq![0isize].drop_first() =~= Seq::<isize>::empty());
        assert(pos_seq(seq![0isize]) =~= Seq::<isize>::empty());
        assert(pos_seq(mid_s) =~= seq![v] + Seq::<isize>::empty());
        assert(seq![v] + Seq::<isize>::empty() =~= seq![v]);
    }
    assert(pos_seq(mid_t) == seq![v]) by {
        reveal_with_fuel(pos_seq, 4);
        assert(mid_t.drop_first() =~= seq![v]);
        assert(seq![v].drop_first() =~= Seq::<isize>::empty());
        assert(pos_seq(seq![v]) =~= seq![v] + Seq::<isize>::empty());
        assert(seq![v] + Seq::<isize>::empty() =~= seq![v]);
        assert(pos_seq(mid_t) =~= seq![v]);
    }
}

/// Pointwise clearing of positive values can only lower the positive count,
/// and lowers it strictly when some positive value is cleared.
pub proof fn lemma_pos_count_pointwise(s: Seq<isize>, t: Seq<isize>)
    requires
        s.len() == t.len(),
        forall|i: int| 0 <= i < s.len() ==> #[trigger] t[i] == s[i] || (s[i] > 0 && t[i] == 0),
    ensures
        pos_count(t) <= pos_count(s),
        (exists|i: int| 0 <= i < s.len() && #[trigger] s[i] > 0 && t[i] == 0) ==> pos_count(t)
            < pos_count(s),
    decreases s.len(),
{
    if s.len() > 0 {
        assert(t[0] == s[0] || (s[0] > 0 && t[0] == 0));
        assert(forall|i: int|
            0 <= i < s.drop_first().len() ==> #[trigger] t.drop_first()[i] == s.drop_first()[i] || (
            s.drop_first()[i] > 0 && t.drop_first()[i] == 0)) by {
            assert(forall|i: int|
                0 <= i < s.drop_first().len() ==> s.drop_first()[i] == s[i + 1]
                    && #[trigger] t.drop_first()[i] == t[i + 1]);
        }
        lemma_pos_count_pointwise(s.drop_first(), t.drop_first());
        if exists|i: int| 0 <= i < s.len() && #[trigger] s[i] > 0 && t[i] == 0 {
            let i = choose|i: int| 0 <= i < s.len() && #[trigger] s[i] > 0 && t[i] == 0;
            if i == 0 {
                assert(pos_ind(t[0]) < pos_ind(s[0]));
            } else {
                assert(s.drop_first()[i - 1] > 0 && t.drop_first()[i - 1] == 0);
            }
        }
    }
}

/// Columns with equal positive counts give grids with equal counts.
pub proof fn lemma_count_cols_eq(g: Seq<Seq<isize>>, g2: Seq<Seq<isize>>, x: int)
    requires
        forall|k: int| 0 <= k < x ==> pos_count(#[trigger] col(g2, k)) == pos_count(col(g, k)),
    ensures
        count_cols(g2, x) == count_cols(g, x),
    decreases x,
{
    if x > 0 {
        lemma_count_cols_eq(g, g2, x - 1);
    }
}

/// Columns with pointwise smaller positive counts give a grid with a smaller
/// count; one strictly smaller column makes the whole count strictly smaller.
pub proof fn lemma_count_cols_le(g: Seq<Seq<isize>>, g2: Seq<Seq<isize>>, x: int)
    requires
        forall|k: int| 0 <= k < x ==> pos_count(#[trigger] col(g2, k)) <= pos_count(col(g, k)),
    ensures
        count_cols(g2, x) <= count_cols(g, x),
        (exists|k: int|
            0 <= k < x && pos_count(#[trigger] col(g2, k)) < pos_count(col(g, k)))
            ==> count_cols(g2, x) < count_cols(g, x),
    decreases x,
{
    if x > 0 {
        lemma_count_cols_le(g, g2, x - 1);
        if exists|k: int| 0 <= k < x && pos_count(#[trigger] col(g2, k)) < pos_count(col(g, k)) {
            let k = choose|k: int|
                0 <= k < x && pos_count(#[trigger] col(g2, k)) < pos_count(col(g, k));
            if k < x - 1 {
                assert(count_cols(g2, x - 1) < count_cols(g, x - 1));
            }
        }
    }
}

/// Likewise for the fall potential.
pub proof fn lemma_pot_cols_le(g: Seq<Seq<isize>>, g2: Seq<Seq<isize>>, x: int)
    requires
        forall|k: int| 0 <= k < x ==> fall_pot(#[trigger] col(g2, k)) <= fall_pot(col(g, k)),
    ensures
        pot_cols(g2, x) <= pot_cols(g, x),
        (exists|k: int|
            0 <= k < x && fall_pot(#[trigger] col(g2, k)) < fall_pot(col(g, k))) ==> pot_cols(
            g2,
            x,
        ) < pot_cols(g, x),
    decreases x,
{
    if x > 0 {
        lemma_pot_cols_le(g, g2, x - 1);
        if exists|k: int| 0 <= k < x && fall_pot(#[trigger] col(g2, k)) < fall_pot(col(g, k)) {
            let k = choose|k: int|
                0 <= k < x && fall_pot(#[trigger] col(g2, k)) < fall_pot(col(g, k));
            if k < x - 1 {
                assert(pot_cols(g2, x - 1) < pot_cols(g, x - 1));
            }
        }
    }
}

/// Writing `v` into cell `(y, x)` changes the grid's positive count by the
/// two indicators, and no other column.
pub proof fn lemma_count_pos_update(g: Seq<Seq<isize>>, y: int, x: int, v: isize)
    requires
        0 <= y < g.len(),
        0 <= x < g[y].len(),
        forall|yy: int| 0 <= yy < g.len() ==> (#[trigger] g[yy]).len() == g[0].len(),
    ensures
        count_pos(g.update(y, g[y].update(x, v))) + pos_ind(g[y][x]) == count_pos(g) + pos_ind(v),
{
    let g2 = g.update(y, g[y].update(x, v));
    assert(gwidth(g2) == gwidth(g));
    assert(col(g2, x) =~= col(g, x).update(y, v));
    assert(forall|k: int| 0 <= k < gwidth(g) && k != x ==> #[trigger] col(g2, k) =~= col(g, k));
    lemma_pos_count_update(col(g, x), y, v);
    lemma_count_cols_split(g, g2, x, gwidth(g));
}

/// Two grids whose columns agree except at column `x` have counts that differ
/// exactly by those two columns.
pub proof fn lemma_count_cols_split(g: Seq<Seq<isize>>, g2: Seq<Seq<isize>>, x: int, w: int)
    requires
        0 <= x < w,
        forall|k: int| 0 <= k < w && k != x ==> #[trigger] col(g2, k) == col(g, k),
    ensures
        count_cols(g2, w) + pos_count(col(g, x)) == count_cols(g, w) + pos_count(col(g2, x)),
    decreases w,
{
    if x == w - 1 {
        lemma_count_cols_eq(g, g2, w - 1);
    } else {
        lemma_count_cols_split(g, g2, x, w - 1);
    }
}

} // verus!
