//! The cascade resolver: clear every marked cell, let the tiles fall, and
//! repeat until no match remains.

use vstd::prelude::*;

use crate::board::GameBoard;
use crate::board::in_grid;
use crate::counting::col;
use crate::counting::count_pos;
use crate::counting::fall_pot;
use crate::counting::grid_pot;
use crate::counting::gwidth;
use crate::counting::lemma_count_cols_eq;
use crate::counting::lemma_count_cols_le;
use crate::counting::lemma_fall_pot_update;
use crate::counting::lemma_move_down_pos_seq;
use crate::counting::lemma_pos_count_is_len;
use crate::counting::lemma_pos_count_pointwise;
use crate::counting::lemma_pos_seq_add;
use crate::counting::lemma_pot_cols_le;
use crate::counting::pos_seq;
use crate::goal::color_count;
use crate::goal::color_count_row;
use crate::goal::color_count_rows;
use crate::goal::lemma_color_count_add;
use crate::goal::lemma_color_count_push;
use crate::goal::lemma_color_rows_agree;
use crate::goal::lemma_color_rows_eq;
use crate::goal::lemma_marked_color_big;
use crate::goal::lemma_row_color_equiv;
use crate::matching::board_marked;
use crate::matching::check_what_blocks_to_remove;
use crate::matching::has_marks;
use crate::matching::lemma_marked_positive;

verus! {

/// Every row has the width of the first one.
pub open spec fn rect(g: Seq<Seq<isize>>) -> bool {
    forall|y: int| 0 <= y < g.len() ==> (#[trigger] g[y]).len() == gwidth(g)
}

/// The two grids have the same shape.
pub open spec fn same_dims(g: Seq<Seq<isize>>, g2: Seq<Seq<isize>>) -> bool {
    g2.len() == g.len() && forall|y: int|
        0 <= y < g.len() ==> (#[trigger] g2[y]).len() == g[y].len()
}

/// Blockers do not move: every blocker cell is unchanged, and no cell
/// becomes a blocker.
pub open spec fn blockers_fixed(g: Seq<Seq<isize>>, g2: Seq<Seq<isize>>) -> bool {
    forall|y: int, x: int|
        in_grid(g, y, x) ==> ((#[trigger] g[y][x] < 0 ==> g2[y][x] == g[y][x]) && (#[trigger] g2[y][x]
            < 0 ==> g[y][x] < 0))
}

/// No tile hangs over air: a positive cell never has an empty cell directly
/// beneath it, except in the bottom row.
pub open spec fn settled(g: Seq<Seq<isize>>) -> bool {
    forall|y: int, x: int|
        0 <= y && y + 1 < g.len() && 0 <= x && x < g[y].len() && x < g[y + 1].len() ==> !(
        #[trigger] g[y][x] > 0 && g[y + 1][x] == 0)
}

/// The grid with every marked cell cleared to air.
pub open spec fn clear_of(g: Seq<Seq<isize>>) -> Seq<Seq<isize>> {
    Seq::new(
        g.len(),
        |y: int|
            Seq::new(
                g[y].len(),
                |x: int|
                    if board_marked(g, y, x) {
                        0isize
                    } else {
                        g[y][x]
                    },
            ),
    )
}

/// What one gravity fixed point is: the shape is kept, blockers stay put,
/// every column keeps its positive values in order, tiles never cross a
/// blocker (every prefix of a column that ends at a blocker keeps its
/// positive values as well), and the result is settled.  Together these pin
/// the result completely for a well-formed grid.
pub open spec fn gravity_rel(g: Seq<Seq<isize>>, g2: Seq<Seq<isize>>) -> bool {
    &&& same_dims(g, g2)
    &&& blockers_fixed(g, g2)
    &&& settled(g2)
    &&& forall|x: int| 0 <= x < gwidth(g) ==> pos_seq(#[trigger] col(g2, x)) == pos_seq(col(g, x))
    &&& forall|x: int, i: int|
        0 <= x < gwidth(g) && 0 <= i < g.len() && g[i][x] < 0 ==> pos_seq(
            #[trigger] col(g2, x).take(i),
        ) == pos_seq(col(g, x).take(i))
}

/// `g2` is reached from `g` by at most `n` clear-then-fall rounds, ending in
/// a grid with no match left.
pub open spec fn cascade_n(g: Seq<Seq<isize>>, g2: Seq<Seq<isize>>, n: nat) -> bool
    decreases n,
{
    if !has_marks(g) {
        g2 == g
    } else {
        n > 0 && exists|mid: Seq<Seq<isize>>|
            gravity_rel(clear_of(g), mid) && cascade_n(mid, g2, (n - 1) as nat)
    }
}

/// `g2` is the cascade fixed point of `g`.
pub open spec fn cascade_rel(g: Seq<Seq<isize>>, g2: Seq<Seq<isize>>) -> bool {
    exists|n: nat| cascade_n(g, g2, n)
}

/// A cascade always ends in a grid with no match left.
pub proof fn lemma_cascade_fixed(g: Seq<Seq<isize>>, g2: Seq<Seq<isize>>, n: nat)
    requires
        cascade_n(g, g2, n),
    ensures
        !has_marks(g2),
    decreases n,
{
    if has_marks(g) {
        let mid = choose|mid: Seq<Seq<isize>>|
            gravity_rel(clear_of(g), mid) && cascade_n(mid, g2, (n - 1) as nat);
        lemma_cascade_fixed(mid, g2, (n - 1) as nat);
    }
}

/// The cascade resolver is idempotent at its fixed point: its output has no
/// match left, so re-running the cascade on that output yields the output
/// itself, unchanged.
pub proof fn lemma_cascade_idempotent(g: Seq<Seq<isize>>, g2: Seq<Seq<isize>>)
    requires
        cascade_rel(g, g2),
    ensures
        !has_marks(g2),
        cascade_rel(g2, g2),
{
    let n = choose|n: nat| cascade_n(g, g2, n);
    lemma_cascade_fixed(g, g2, n);
    assert(cascade_n(g2, g2, 0));
}

/// Letting the tiles fall changes no count: each column keeps its positive
/// values.
pub proof fn lemma_gravity_preserves_count(g: Seq<Seq<isize>>, g2: Seq<Seq<isize>>)
    requires
        gravity_rel(g, g2),
    ensures
        count_pos(g2) == count_pos(g),
{
    assert(gwidth(g2) == gwidth(g));
    assert forall|k: int|
        0 <= k < gwidth(g) implies crate::counting::pos_count(#[trigger] col(g2, k))
        == crate::counting::pos_count(col(g, k)) by {
        lemma_pos_count_is_len(col(g2, k));
        lemma_pos_count_is_len(col(g, k));
    }
    lemma_count_cols_eq(g, g2, gwidth(g));
}

/// Clearing the marked cells removes at least one tile whenever some cell
/// is marked.
pub proof fn lemma_clear_decreases(g: Seq<Seq<isize>>)
    requires
        rect(g),
    ensures
        count_pos(clear_of(g)) <= count_pos(g),
        has_marks(g) ==> count_pos(clear_of(g)) < count_pos(g),
{
    let c = clear_of(g);
    assert(gwidth(c) == gwidth(g));
    assert forall|k: int| 0 <= k < gwidth(g) implies crate::counting::pos_count(
        #[trigger] col(c, k),
    ) <= crate::counting::pos_count(col(g, k)) by {
        lemma_clear_col_le(g, k);
    }
    lemma_count_cols_le(g, c, gwidth(g));
    if has_marks(g) {
        let (y, x) = choose|y: int, x: int| board_marked(g, y, x);
        lemma_marked_positive(g, y, x);
        assert(col(g, x)[y] > 0 && col(c, x)[y] == 0);
        lemma_clear_col_le(g, x);
        assert(crate::counting::pos_count(col(c, x)) < crate::counting::pos_count(col(g, x)));
    }
}

proof fn lemma_clear_col_le(g: Seq<Seq<isize>>, k: int)
    requires
        rect(g),
        0 <= k < gwidth(g),
    ensures
        crate::counting::pos_count(col(clear_of(g), k)) <= crate::counting::pos_count(col(g, k)),
        (exists|y: int| 0 <= y < g.len() && #[trigger] col(g, k)[y] > 0 && col(clear_of(g), k)[y]
            == 0) ==> crate::counting::pos_count(col(clear_of(g), k)) < crate::counting::pos_count(
            col(g, k),
        ),
{
    let c = clear_of(g);
    assert forall|y: int| 0 <= y < g.len() implies #[trigger] col(c, k)[y] == col(g, k)[y] || (col(
        g,
        k,
    )[y] > 0 && col(c, k)[y] == 0) by {
        if board_marked(g, y, k) {
            lemma_marked_positive(g, y, k);
        }
    }
    lemma_pos_count_pointwise(col(g, k), col(c, k));
}

/// A cascade never adds a tile, and removes at least one whenever its input
/// had a match.
pub proof fn lemma_cascade_count(g: Seq<Seq<isize>>, g2: Seq<Seq<isize>>, n: nat)
    requires
        cascade_n(g, g2, n),
        rect(g),
    ensures
        count_pos(g2) <= count_pos(g),
        has_marks(g) ==> count_pos(g2) < count_pos(g),
    decreases n,
{
    if has_marks(g) {
        let mid = choose|mid: Seq<Seq<isize>>|
            gravity_rel(clear_of(g), mid) && cascade_n(mid, g2, (n - 1) as nat);
        lemma_clear_decreases(g);
        lemma_gravity_preserves_count(clear_of(g), mid);
        assert(rect(mid)) by {
            assert(same_dims(clear_of(g), mid));
            assert(gwidth(mid) == gwidth(clear_of(g)));
        }
        lemma_cascade_count(mid, g2, (n - 1) as nat);
    }
}


/// Settledness of one column: no positive value directly above a zero.
pub open spec fn col_settled(s: Seq<isize>) -> bool {
    forall|i: int| 0 <= i && i + 1 < s.len() ==> !(#[trigger] s[i] > 0 && s[i + 1] == 0)
}

/// A column of `n` empty cells.
pub open spec fn zeros(n: int) -> Seq<isize> {
    Seq::new(n as nat, |i: int| 0isize)
}

/// A column never holds more positive values than cells.
proof fn lemma_pos_seq_len_le(s: Seq<isize>)
    ensures
        pos_seq(s).len() <= s.len(),
    decreases s.len(),
{
    if s.len() > 0 {
        lemma_pos_seq_len_le(s.drop_first());
    }
}

/// A settled, blocker-free column has exactly one shape: all its air on
/// top, all its positive values at the bottom, in order.
proof fn lemma_settled_segment_shape(s: Seq<isize>)
    requires
        col_settled(s),
        forall|i: int| 0 <= i < s.len() ==> (#[trigger] s[i]) >= 0,
    ensures
        s == zeros(s.len() - pos_seq(s).len()) + pos_seq(s),
    decreases s.len(),
{
    lemma_pos_seq_len_le(s);
    if s.len() == 0 {
        assert(s =~= zeros(0) + pos_seq(s));
    } else {
        let t = s.drop_first();
        assert(col_settled(t)) by {
            assert(forall|i: int|
                0 <= i && i + 1 < t.len() ==> (#[trigger] t[i]) == s[i + 1] && t[i + 1] == s[i
                    + 2]);
        }
        assert(forall|i: int| 0 <= i < t.len() ==> (#[trigger] t[i]) == s[i + 1] && t[i] >= 0);
        lemma_settled_segment_shape(t);
        lemma_pos_seq_len_le(t);
        let p = pos_seq(s);
        let k = s.len() - p.len();
        if s[0] > 0 {
            // Nothing below a tile is air, so the whole column is tiles.
            if t.len() > 0 {
                assert(s[1] != 0 && s[1] >= 0);
                assert(t[0] > 0);
                assert((zeros(t.len() - pos_seq(t).len()) + pos_seq(t))[0] == t[0]);
                if t.len() - pos_seq(t).len() > 0 {
                    assert(zeros(t.len() - pos_seq(t).len())[0] == 0isize);
                    assert(false);
                }
                assert(t =~= pos_seq(t));
            } else {
                assert(t =~= pos_seq(t));
            }
            assert(p == seq![s[0]] + pos_seq(t));
            assert(s =~= zeros(0) + (seq![s[0]] + pos_seq(t)));
        } else {
            assert(s[0] == 0);
            assert(p == pos_seq(t));
            let kt = t.len() - pos_seq(t).len();
            assert(k == kt + 1);
            assert forall|i: int| 0 <= i < s.len() implies (#[trigger] s[i]) == (zeros(k) + p)[i] by {
                if i == 0 {
                    assert(zeros(k)[0] == 0isize);
                } else {
                    assert(s[i] == t[i - 1]);
                    assert(t[i - 1] == (zeros(kt) + pos_seq(t))[i - 1]);
                    if i - 1 < kt {
                        assert((zeros(kt) + pos_seq(t))[i - 1] == 0isize);
                        assert((zeros(k) + p)[i] == zeros(k)[i]);
                        assert(zeros(k)[i] == 0isize);
                    } else {
                        assert((zeros(kt) + pos_seq(t))[i - 1] == pos_seq(t)[i - 1 - kt]);
                        assert((zeros(k) + p)[i] == p[i - k]);
                    }
                }
            }
            assert(s =~= zeros(k) + p);
        }
    }
}

/// The index of the topmost blocker of a column that has one.
proof fn first_blocker(c: Seq<isize>) -> (j: int)
    requires
        exists|i: int| 0 <= i < c.len() && (#[trigger] c[i]) < 0,
    ensures
        0 <= j < c.len(),
        c[j] < 0,
        forall|k: int| 0 <= k < j ==> (#[trigger] c[k]) >= 0,
    decreases c.len(),
{
    let i0 = choose|i: int| 0 <= i < c.len() && (#[trigger] c[i]) < 0;
    if c[0] < 0 {
        0
    } else {
        let t = c.drop_first();
        assert(0 <= i0 - 1 < t.len() && t[i0 - 1] < 0);
        let jt = first_blocker(t);
        assert(forall|k: int| 0 <= k < jt ==> (#[trigger] t[k]) >= 0);
        assert forall|k: int| 0 <= k < jt + 1 implies (#[trigger] c[k]) >= 0 by {
            if k > 0 {
                assert(c[k] == t[k - 1]);
            }
        }
        jt + 1
    }
}

/// Concatenation cancels on the left.
proof fn lemma_add_cancel_left(a: Seq<isize>, b: Seq<isize>, b2: Seq<isize>)
    requires
        a + b == a + b2,
    ensures
        b == b2,
{
    assert(b =~= (a + b).skip(a.len() as int));
    assert(b2 =~= (a + b2).skip(a.len() as int));
}

/// Two settled columns over the same source column are equal: the blockers
/// stand where the source has them, each stretch between blockers keeps its
/// positive values, and settledness forces each stretch into one shape.
#[verifier::rlimit(60)]
proof fn lemma_settled_column_unique(c: Seq<isize>, u: Seq<isize>, v: Seq<isize>)
    requires
        u.len() == c.len(),
        v.len() == c.len(),
        forall|i: int| 0 <= i < c.len() && (#[trigger] c[i]) < 0 ==> u[i] == c[i] && v[i] == c[i],
        forall|i: int| 0 <= i < c.len() && (#[trigger] u[i]) < 0 ==> c[i] < 0,
        forall|i: int| 0 <= i < c.len() && (#[trigger] v[i]) < 0 ==> c[i] < 0,
        col_settled(u),
        col_settled(v),
        pos_seq(u) == pos_seq(v),
        forall|i: int|
            0 <= i < c.len() && (#[trigger] c[i]) < 0 ==> pos_seq(u.take(i)) == pos_seq(v.take(i)),
    ensures
        u == v,
    decreases c.len(),
{
    if !(exists|i: int| 0 <= i < c.len() && (#[trigger] c[i]) < 0) {
        // No blocker at all: one blocker-free stretch.
        assert forall|i: int| 0 <= i < u.len() implies (#[trigger] u[i]) >= 0 by {
            if u[i] < 0 {
                assert(c[i] < 0);
            }
        }
        assert forall|i: int| 0 <= i < v.len() implies (#[trigger] v[i]) >= 0 by {
            if v[i] < 0 {
                assert(c[i] < 0);
            }
        }
        lemma_settled_segment_shape(u);
        lemma_settled_segment_shape(v);
    } else {
        let j = first_blocker(c);
        let pu = u.take(j);
        let pv = v.take(j);
        // The stretch above the topmost blocker is blocker-free and keeps
        // its positive values, so it has the one settled shape.
        assert forall|i: int| 0 <= i < pu.len() implies (#[trigger] pu[i]) == u[i] && pu[i]
            >= 0 by {
            assert(c[i] >= 0);
            if u[i] < 0 {
                assert(c[i] < 0);
            }
        }
        assert forall|i: int| 0 <= i < pv.len() implies (#[trigger] pv[i]) == v[i] && pv[i]
            >= 0 by {
            assert(c[i] >= 0);
            if v[i] < 0 {
                assert(c[i] < 0);
            }
        }
        assert(col_settled(pu)) by {
            assert(forall|i: int|
                0 <= i && i + 1 < pu.len() ==> (#[trigger] pu[i]) == u[i] && pu[i + 1] == u[i + 1]);
        }
        assert(col_settled(pv)) by {
            assert(forall|i: int|
                0 <= i && i + 1 < pv.len() ==> (#[trigger] pv[i]) == v[i] && pv[i + 1] == v[i + 1]);
        }
        lemma_settled_segment_shape(pu);
        lemma_settled_segment_shape(pv);
        assert(pos_seq(pu) == pos_seq(pv));
        assert(pu == pv);
        // Below the blocker the same claim holds of the shorter columns.
        let cs = c.skip(j + 1);
        let us = u.skip(j + 1);
        let vs = v.skip(j + 1);
        assert(u.take(j + 1) =~= pu.push(c[j]));
        assert(v.take(j + 1) =~= pv.push(c[j]));
        assert(pos_seq(seq![c[j]]) =~= Seq::<isize>::empty()) by {
            reveal_with_fuel(pos_seq, 3);
            assert(seq![c[j]].drop_first() =~= Seq::<isize>::empty());
        }
        assert(pu + seq![c[j]] =~= u.take(j + 1));
        assert(pv + seq![c[j]] =~= v.take(j + 1));
        lemma_pos_seq_add(pu, seq![c[j]]);
        lemma_pos_seq_add(pv, seq![c[j]]);
        assert(pos_seq(u.take(j + 1)) =~= pos_seq(pu));
        assert(pos_seq(v.take(j + 1)) =~= pos_seq(pv));
        assert(u =~= u.take(j + 1) + us);
        assert(v =~= v.take(j + 1) + vs);
        lemma_pos_seq_add(u.take(j + 1), us);
        lemma_pos_seq_add(v.take(j + 1), vs);
        lemma_add_cancel_left(pos_seq(u.take(j + 1)), pos_seq(us), pos_seq(vs));
        assert(col_settled(us)) by {
            assert(forall|i: int|
                0 <= i && i + 1 < us.len() ==> (#[trigger] us[i]) == u[i + j + 1] && us[i + 1]
                    == u[i + j + 2]);
        }
        assert(col_settled(vs)) by {
            assert(forall|i: int|
                0 <= i && i + 1 < vs.len() ==> (#[trigger] vs[i]) == v[i + j + 1] && vs[i + 1]
                    == v[i + j + 2]);
        }
        assert forall|i: int| 0 <= i < cs.len() && (#[trigger] cs[i]) < 0 implies us[i] == cs[i]
            && vs[i] == cs[i] by {
            assert(cs[i] == c[i + j + 1]);
        }
        assert forall|i: int| 0 <= i < cs.len() && (#[trigger] us[i]) < 0 implies cs[i] < 0 by {
            assert(us[i] == u[i + j + 1]);
            assert(cs[i] == c[i + j + 1]);
        }
        assert forall|i: int| 0 <= i < cs.len() && (#[trigger] vs[i]) < 0 implies cs[i] < 0 by {
            assert(vs[i] == v[i + j + 1]);
            assert(cs[i] == c[i + j + 1]);
        }
        assert forall|i: int|
            0 <= i < cs.len() && (#[trigger] cs[i]) < 0 implies pos_seq(us.take(i)) == pos_seq(
            vs.take(i),
        ) by {
            assert(cs[i] == c[i + j + 1] && c[i + j + 1] < 0);
            assert(u.take(i + j + 1) =~= u.take(j + 1) + us.take(i));
            assert(v.take(i + j + 1) =~= v.take(j + 1) + vs.take(i));
            lemma_pos_seq_add(u.take(j + 1), us.take(i));
            lemma_pos_seq_add(v.take(j + 1), vs.take(i));
            assert(pos_seq(u.take(i + j + 1)) == pos_seq(v.take(i + j + 1)));
            lemma_add_cancel_left(pos_seq(u.take(j + 1)), pos_seq(us.take(i)), pos_seq(vs.take(i)));
        }
        lemma_settled_column_unique(cs, us, vs);
        assert(u =~= v);
    }
}

/// Gravity has exactly one fixed point over a rectangular grid: any two
/// grids that the relation admits are equal.
pub proof fn lemma_gravity_unique(g: Seq<Seq<isize>>, a: Seq<Seq<isize>>, b: Seq<Seq<isize>>)
    requires
        rect(g),
        gravity_rel(g, a),
        gravity_rel(g, b),
    ensures
        a == b,
{
    assert forall|x: int| 0 <= x < gwidth(g) implies #[trigger] col(a, x) == col(b, x) by {
        let c = col(g, x);
        let u = col(a, x);
        let v = col(b, x);
        assert forall|i: int| 0 <= i < c.len() && (#[trigger] c[i]) < 0 implies u[i] == c[i]
            && v[i] == c[i] by {
            assert(in_grid(g, i, x));
            assert(g[i][x] < 0);
        }
        assert forall|i: int| 0 <= i < c.len() && (#[trigger] u[i]) < 0 implies c[i] < 0 by {
            assert(in_grid(g, i, x));
            assert(a[i][x] < 0);
        }
        assert forall|i: int| 0 <= i < c.len() && (#[trigger] v[i]) < 0 implies c[i] < 0 by {
            assert(in_grid(g, i, x));
            assert(b[i][x] < 0);
        }
        assert(col_settled(u)) by {
            assert forall|i: int|
                0 <= i && i + 1 < u.len() implies !((#[trigger] u[i]) > 0 && u[i + 1] == 0) by {
                assert(u[i] == a[i][x] && u[i + 1] == a[i + 1][x]);
                assert(a[i].len() == g[i].len() && a[i + 1].len() == g[i + 1].len());
            }
        }
        assert(col_settled(v)) by {
            assert forall|i: int|
                0 <= i && i + 1 < v.len() implies !((#[trigger] v[i]) > 0 && v[i + 1] == 0) by {
                assert(v[i] == b[i][x] && v[i + 1] == b[i + 1][x]);
                assert(b[i].len() == g[i].len() && b[i + 1].len() == g[i + 1].len());
            }
        }
        assert forall|i: int| 0 <= i < c.len() && (#[trigger] c[i]) < 0 implies pos_seq(u.take(i))
            == pos_seq(v.take(i)) by {
            assert(g[i][x] < 0);
        }
        lemma_settled_column_unique(c, u, v);
    }
    assert forall|y: int, x: int|
        0 <= y < a.len() && 0 <= x < a[y].len() implies (#[trigger] a[y][x]) == b[y][x] by {
        assert(a[y].len() == g[y].len() && g[y].len() == gwidth(g));
        assert(col(a, x)[y] == a[y][x] && col(b, x)[y] == b[y][x]);
        assert(col(a, x) == col(b, x));
    }
    assert(a =~~= b);
}

/// The cascade has exactly one fixed point over a rectangular grid: the
/// resolver's relational contract names the one board it can return.
pub proof fn lemma_cascade_deterministic(
    g: Seq<Seq<isize>>,
    a: Seq<Seq<isize>>,
    b: Seq<Seq<isize>>,
)
    requires
        rect(g),
        cascade_rel(g, a),
        cascade_rel(g, b),
    ensures
        a == b,
{
    let n1 = choose|n: nat| cascade_n(g, a, n);
    let n2 = choose|n: nat| cascade_n(g, b, n);
    lemma_cascade_unique_n(g, a, b, n1, n2);
}

proof fn lemma_cascade_unique_n(
    g: Seq<Seq<isize>>,
    a: Seq<Seq<isize>>,
    b: Seq<Seq<isize>>,
    n1: nat,
    n2: nat,
)
    requires
        rect(g),
        cascade_n(g, a, n1),
        cascade_n(g, b, n2),
    ensures
        a == b,
    decreases n1,
{
    if has_marks(g) {
        let m1 = choose|mid: Seq<Seq<isize>>|
            gravity_rel(clear_of(g), mid) && cascade_n(mid, a, (n1 - 1) as nat);
        let m2 = choose|mid: Seq<Seq<isize>>|
            gravity_rel(clear_of(g), mid) && cascade_n(mid, b, (n2 - 1) as nat);
        assert(rect(clear_of(g))) by {
            assert(gwidth(clear_of(g)) == gwidth(g));
        }
        lemma_gravity_unique(clear_of(g), m1, m2);
        assert(rect(m1)) by {
            assert(same_dims(clear_of(g), m1));
            assert(gwidth(m1) == gwidth(clear_of(g)));
        }
        lemma_cascade_unique_n(m1, a, b, (n1 - 1) as nat, (n2 - 1) as nat);
    }
}




/// A column without positive values has an empty positive subsequence.
proof fn lemma_pos_seq_none(s: Seq<isize>)
    requires
        forall|i: int| 0 <= i < s.len() ==> (#[trigger] s[i]) <= 0,
    ensures
        pos_seq(s) == Seq::<isize>::empty(),
    decreases s.len(),
{
    if s.len() > 0 {
        assert(forall|i: int|
            0 <= i < s.drop_first().len() ==> (#[trigger] s.drop_first()[i]) == s[i + 1]);
        lemma_pos_seq_none(s.drop_first());
    }
}

/// The index of the lowest positive value of a column that has one.
proof fn last_positive(s: Seq<isize>) -> (j: int)
    requires
        exists|i: int| 0 <= i < s.len() && (#[trigger] s[i]) > 0,
    ensures
        0 <= j < s.len(),
        s[j] > 0,
        forall|k: int| j < k < s.len() ==> (#[trigger] s[k]) <= 0,
    decreases s.len(),
{
    let i0 = choose|i: int| 0 <= i < s.len() && (#[trigger] s[i]) > 0;
    if s[s.len() - 1] > 0 {
        s.len() - 1
    } else {
        let t = s.drop_last();
        assert(0 <= i0 < t.len() && t[i0] > 0);
        let j = last_positive(t);
        assert(forall|k: int| j < k < t.len() ==> (#[trigger] t[k]) <= 0);
        assert forall|k: int| j < k < s.len() implies (#[trigger] s[k]) <= 0 by {
            if k < s.len() - 1 {
                assert(s[k] == t[k]);
            }
        }
        j
    }
}

/// A tile resting directly on a blocker stays exactly where it is: the
/// blocker does not move, and the tile cannot pass through it, whatever
/// lies below.
pub proof fn lemma_tile_rests_on_blocker(
    g: Seq<Seq<isize>>,
    g2: Seq<Seq<isize>>,
    y: int,
    x: int,
)
    requires
        rect(g),
        gravity_rel(g, g2),
        0 <= y,
        y + 1 < g.len(),
        0 <= x < g[y].len(),
        g[y][x] > 0,
        g[y + 1][x] < 0,
    ensures
        g2[y][x] == g[y][x],
        g2[y + 1][x] == g[y + 1][x],
{
    let v = g[y][x];
    assert(in_grid(g, y, x) && in_grid(g, y + 1, x));
    assert(x < gwidth(g));
    // The blocker is fixed in place.
    assert(g2[y + 1][x] == g[y + 1][x]);
    let u = col(g, x).take(y + 1);
    let u2 = col(g2, x).take(y + 1);
    // The column prefix above the blocker keeps its positive values.
    assert(pos_seq(u2) == pos_seq(u));
    // In the source, that prefix ends with the tile.
    assert(u =~= u.take(y) + seq![v]);
    lemma_pos_seq_add(u.take(y), seq![v]);
    assert(pos_seq(seq![v]) =~= seq![v]) by {
        reveal_with_fuel(pos_seq, 3);
        assert(seq![v].drop_first() =~= Seq::<isize>::empty());
    }
    assert(pos_seq(u) == pos_seq(u.take(y)) + seq![v]);
    // The cell above the blocker cannot have become a blocker itself.
    assert(g2[y][x] >= 0);
    if g2[y][x] > 0 {
        // A positive cell there is the last value of the prefix's positive
        // subsequence, which the relation fixes to be the tile.
        assert(u2 =~= u2.take(y) + seq![u2[y]]);
        lemma_pos_seq_add(u2.take(y), seq![u2[y]]);
        assert(pos_seq(seq![u2[y]]) =~= seq![u2[y]]) by {
            reveal_with_fuel(pos_seq, 3);
            assert(seq![u2[y]].drop_first() =~= Seq::<isize>::empty());
        }
        assert(pos_seq(u2) == pos_seq(u2.take(y)) + seq![u2[y]]);
        assert(pos_seq(u2).last() == u2[y] && pos_seq(u).last() == v);
        assert(g2[y][x] == v);
    } else {
        // Air above the blocker: the prefix still holds the tile somewhere
        // higher, and below its lowest tile the settled column shows a
        // second blocker, whose own prefix then holds too few tiles.
        assert(u2[y] == 0);
        assert(pos_seq(u2).len() >= 1);
        assert(exists|i: int| 0 <= i < u2.len() && (#[trigger] u2[i]) > 0) by {
            if forall|i: int| 0 <= i < u2.len() ==> (#[trigger] u2[i]) <= 0 {
                lemma_pos_seq_none(u2);
            }
        }
        let j = last_positive(u2);
        assert(j < y);
        assert(u2[j + 1] <= 0);
        // Settledness rules out air directly below a tile.
        assert(g2[j][x] > 0 && g2[j + 1][x] == u2[j + 1]);
        assert(g2[j].len() == g[j].len() && g2[j + 1].len() == g[j + 1].len());
        assert(u2[j + 1] != 0);
        assert(g2[j + 1][x] < 0);
        // So the source has a blocker at j+1, and its prefix keeps its
        // positive values as well.
        assert(g[j + 1][x] < 0);
        assert(pos_seq(col(g2, x).take(j + 1)) == pos_seq(col(g, x).take(j + 1)));
        // All positive values of the longer prefix sit at or above j.
        assert(u2 =~= u2.take(j + 1) + u2.skip(j + 1));
        lemma_pos_seq_add(u2.take(j + 1), u2.skip(j + 1));
        assert(pos_seq(u2.skip(j + 1)) == Seq::<isize>::empty()) by {
            assert(forall|k: int|
                0 <= k < u2.skip(j + 1).len() ==> (#[trigger] u2.skip(j + 1)[k]) == u2[k + j + 1]);
            lemma_pos_seq_none(u2.skip(j + 1));
        }
        assert(u2.take(j + 1) =~= col(g2, x).take(j + 1));
        assert(pos_seq(col(g2, x).take(j + 1)) == pos_seq(u2));
        // But the source prefix below j+1 misses the tile at y, so it is
        // strictly shorter: the relation is contradicted.
        assert(u =~= u.take(j + 1) + u.skip(j + 1));
        lemma_pos_seq_add(u.take(j + 1), u.skip(j + 1));
        assert(pos_seq(u.skip(j + 1)).len() >= 1) by {
            let w = u.skip(j + 1);
            assert(w[y - j - 1] == v);
            assert(w =~= w.take(y - j - 1) + seq![v]);
            lemma_pos_seq_add(w.take(y - j - 1), seq![v]);
            assert(pos_seq(seq![v]) =~= seq![v]) by {
                reveal_with_fuel(pos_seq, 3);
                assert(seq![v].drop_first() =~= Seq::<isize>::empty());
            }
        }
        assert(u.take(j + 1) =~= col(g, x).take(j + 1));
        assert(pos_seq(col(g, x).take(j + 1)).len() < pos_seq(u).len());
        assert(false);
    }
}

/// Clearing the marked cells never touches a color with fewer than three
/// tiles: a marked cell of that color would mean three of them exist.
pub proof fn lemma_clear_keeps_scarce(g: Seq<Seq<isize>>, c: int)
    requires
        c >= 1,
        color_count(g, c) <= 2,
    ensures
        color_count(clear_of(g), c) == color_count(g, c),
{
    let g2 = clear_of(g);
    assert forall|y: int| 0 <= y < g.len() implies color_count_row(#[trigger] g2[y], c)
        == color_count_row(g[y], c) by {
        assert forall|x: int| 0 <= x < g[y].len() implies ((#[trigger] g2[y][x]) == c <==> g[y][x]
            == c) by {
            if board_marked(g, y, x) && g[y][x] == c {
                lemma_marked_color_big(g, y, x);
            }
        }
        lemma_row_color_equiv(g[y], g2[y], c);
    }
    lemma_color_rows_eq(g, g2, c, g.len() as int);
}

/// Color counts of columns `0..x`.
spec fn ccount_cols(g: Seq<Seq<isize>>, c: int, x: int) -> nat
    decreases x,
{
    if x <= 0 {
        0nat
    } else {
        ccount_cols(g, c, x - 1) + color_count_row(col(g, x - 1), c)
    }
}

/// Every column of a grid with no rows is empty, so the column sum is zero.
proof fn lemma_ccount_empty(g: Seq<Seq<isize>>, c: int, x: int)
    requires
        g.len() == 0,
    ensures
        ccount_cols(g, c, x) == 0,
    decreases x,
{
    if x > 0 {
        lemma_ccount_empty(g, c, x - 1);
        assert(col(g, x - 1) =~= Seq::<isize>::empty());
    }
}

/// Dropping the last row takes one value off the end of each column.
proof fn lemma_ccount_step(
    g: Seq<Seq<isize>>,
    gp: Seq<Seq<isize>>,
    last: Seq<isize>,
    c: int,
    x: int,
)
    requires
        0 <= x <= last.len(),
        forall|k: int| 0 <= k < x ==> #[trigger] col(g, k) == col(gp, k).push(last[k]),
    ensures
        ccount_cols(g, c, x) == ccount_cols(gp, c, x) + color_count_row(last.take(x), c),
    decreases x,
{
    if x > 0 {
        lemma_ccount_step(g, gp, last, c, x - 1);
        lemma_color_count_push(col(gp, x - 1), last[x - 1], c);
        lemma_color_count_push(last.take(x - 1), last[x - 1], c);
        assert(last.take(x) =~= last.take(x - 1).push(last[x - 1]));
    }
}

/// Counting a color row by row and column by column agree on a rectangular
/// grid.
proof fn lemma_row_col_count(g: Seq<Seq<isize>>, c: int)
    requires
        rect(g),
    ensures
        color_count(g, c) == ccount_cols(g, c, gwidth(g)),
    decreases g.len(),
{
    if g.len() == 0 {
        lemma_ccount_empty(g, c, gwidth(g));
    } else {
        let h = g.len() as int;
        let gp = g.drop_last();
        let last = g[h - 1];
        assert(forall|k: int| 0 <= k < gp.len() ==> #[trigger] gp[k] == g[k]);
        assert(rect(gp)) by {
            if gp.len() > 0 {
                assert(gwidth(gp) == gwidth(g));
            }
        }
        assert forall|k: int| 0 <= k < gwidth(g) implies #[trigger] col(g, k) == col(gp, k).push(
            last[k],
        ) by {
            assert(col(g, k) =~= col(gp, k).push(last[k]));
        }
        lemma_ccount_step(g, gp, last, c, gwidth(g));
        assert(last.take(gwidth(g)) =~= last);
        lemma_row_col_count(gp, c);
        lemma_color_rows_agree(g, gp, c, h - 1);
        assert(color_count_rows(g, c, h) == color_count_rows(g, c, h - 1) + color_count_row(
            last,
            c,
        ));
        if gp.len() == 0 {
            lemma_ccount_empty(gp, c, gwidth(g));
        } else {
            assert(gwidth(gp) == gwidth(g));
        }
    }
}

/// A column and its positive subsequence count every color alike.
proof fn lemma_pos_seq_colors(s: Seq<isize>, c: int)
    requires
        c >= 1,
    ensures
        color_count_row(pos_seq(s), c) == color_count_row(s, c),
    decreases s.len(),
{
    if s.len() > 0 {
        lemma_pos_seq_colors(s.drop_first(), c);
        if s[0] > 0 {
            lemma_color_count_add(seq![s[0]], pos_seq(s.drop_first()), c);
            assert(color_count_row(seq![s[0]], c) == (if s[0] == c {
                1nat
            } else {
                0nat
            })) by {
                reveal_with_fuel(color_count_row, 3);
                assert(seq![s[0]].drop_first() =~= Seq::<isize>::empty());
            }
        }
    }
}

/// Letting the tiles fall keeps the count of every color: each column keeps
/// its positive values.
pub proof fn lemma_gravity_keeps_colors(g: Seq<Seq<isize>>, g2: Seq<Seq<isize>>, c: int)
    requires
        rect(g),
        gravity_rel(g, g2),
        c >= 1,
    ensures
        color_count(g2, c) == color_count(g, c),
{
    assert(rect(g2)) by {
        assert(gwidth(g2) == gwidth(g));
        assert(forall|y: int| 0 <= y < g2.len() ==> (#[trigger] g2[y]).len() == g[y].len());
    }
    lemma_row_col_count(g, c);
    lemma_row_col_count(g2, c);
    assert(gwidth(g2) == gwidth(g));
    assert forall|x: int| 0 <= x < gwidth(g) implies color_count_row(#[trigger] col(g2, x), c)
        == color_count_row(col(g, x), c) by {
        lemma_pos_seq_colors(col(g2, x), c);
        lemma_pos_seq_colors(col(g, x), c);
    }
    lemma_ccount_eq(g, g2, c, gwidth(g));
}

/// Columns with equal color counts give grids with equal column sums.
proof fn lemma_ccount_eq(g: Seq<Seq<isize>>, g2: Seq<Seq<isize>>, c: int, x: int)
    requires
        forall|k: int|
            0 <= k < x ==> color_count_row(#[trigger] col(g2, k), c) == color_count_row(
                col(g, k),
                c,
            ),
    ensures
        ccount_cols(g2, c, x) == ccount_cols(g, c, x),
    decreases x,
{
    if x > 0 {
        lemma_ccount_eq(g, g2, c, x - 1);
    }
}

/// A cascade keeps the shape of the grid.
pub proof fn lemma_cascade_shape(g: Seq<Seq<isize>>, g2: Seq<Seq<isize>>, n: nat)
    requires
        cascade_n(g, g2, n),
        rect(g),
    ensures
        rect(g2),
        g2.len() == g.len(),
        gwidth(g2) == gwidth(g),
    decreases n,
{
    if has_marks(g) {
        let mid = choose|mid: Seq<Seq<isize>>|
            gravity_rel(clear_of(g), mid) && cascade_n(mid, g2, (n - 1) as nat);
        assert(rect(clear_of(g))) by {
            assert(gwidth(clear_of(g)) == gwidth(g));
        }
        assert(rect(mid)) by {
            assert(same_dims(clear_of(g), mid));
            assert(gwidth(mid) == gwidth(clear_of(g)));
        }
        lemma_cascade_shape(mid, g2, (n - 1) as nat);
    }
}

/// A whole cascade keeps the count of a color with fewer than three tiles:
/// no match of that color can ever form, so none of it is ever cleared.
pub proof fn lemma_cascade_keeps_scarce(g: Seq<Seq<isize>>, g2: Seq<Seq<isize>>, n: nat, c: int)
    requires
        cascade_n(g, g2, n),
        rect(g),
        c >= 1,
        color_count(g, c) <= 2,
    ensures
        color_count(g2, c) == color_count(g, c),
    decreases n,
{
    if has_marks(g) {
        let mid = choose|mid: Seq<Seq<isize>>|
            gravity_rel(clear_of(g), mid) && cascade_n(mid, g2, (n - 1) as nat);
        lemma_clear_keeps_scarce(g, c);
        assert(rect(clear_of(g))) by {
            assert(gwidth(clear_of(g)) == gwidth(g));
        }
        lemma_gravity_keeps_colors(clear_of(g), mid, c);
        assert(rect(mid)) by {
            assert(same_dims(clear_of(g), mid));
            assert(gwidth(mid) == gwidth(clear_of(g)));
        }
        lemma_cascade_keeps_scarce(mid, g2, (n - 1) as nat, c);
    }
}

/// Clear from the board every cell where the mark grid holds `1`.
pub fn remove_given_blocks(game_board: GameBoard, blocks_to_remove: Vec<Vec<usize>>) -> (r:
    GameBoard)
    requires
        game_board.wf(),
        blocks_to_remove@.len() == game_board.height,
        forall|y: int|
            0 <= y < game_board.height ==> (#[trigger] blocks_to_remove@[y])@.len()
                == game_board.width,
    ensures
        r.wf(),
        r.height == game_board.height,
        r.width == game_board.width,
        forall|y: int, x: int|
            0 <= y < game_board.height && 0 <= x < game_board.width ==> #[trigger] (r@[y][x])
                == if blocks_to_remove@[y]@[x] == 1usize {
                0isize
            } else {
                game_board@[y][x]
            },
{
    let ghost g0 = game_board@;
    let mut b = game_board;
    let mut y: usize = 0;
    while y < b.height
        invariant
            b.wf(),
            b.height == game_board.height,
            b.width == game_board.width,
            y <= b.height,
            blocks_to_remove@.len() == b.height,
            forall|i: int|
                0 <= i < b.height ==> (#[trigger] blocks_to_remove@[i])@.len() == b.width,
            forall|i: int, j: int|
                0 <= i < b.height && 0 <= j < b.width ==> #[trigger] (b@[i][j]) == if i < y
                    && blocks_to_remove@[i]@[j] == 1usize {
                    0isize
                } else {
                    g0[i][j]
                },
        decreases b.height - y,
    {
        let row_marks: &Vec<usize> = &blocks_to_remove[y];
        let mut x: usize = 0;
        while x < b.width
            invariant
                b.wf(),
                b.height == game_board.height,
                b.width == game_board.width,
                y < b.height,
                x <= b.width,
                blocks_to_remove@.len() == b.height,
                forall|i: int|
                    0 <= i < b.height ==> (#[trigger] blocks_to_remove@[i])@.len() == b.width,
                row_marks@ == blocks_to_remove@[y as int]@,
                forall|i: int, j: int|
                    0 <= i < b.height && 0 <= j < b.width ==> #[trigger] (b@[i][j]) == if (i < y || (
                    i == y && j < x)) && blocks_to_remove@[i]@[j] == 1usize {
                        0isize
                    } else {
                        g0[i][j]
                    },
            decreases b.width - x,
        {
            if row_marks[x] == 1 {
                b.put(y, x, 0);
            }
            x = x + 1;
        }
        y = y + 1;
    }
    b
}

/// Let every tile fall: scan the rows from the bottom up, moving any tile
/// with air directly beneath it down one row, and repeat the scan until a
/// full scan moves nothing.  Blockers stay put, every column keeps its
/// positive values in order, and the result is settled.
pub fn calculate_gravity(game_board: GameBoard) -> (r: GameBoard)
    requires
        game_board.wf(),
        game_board.height >= 1,
    ensures
        r.wf(),
        r.height == game_board.height,
        r.width == game_board.width,
        gravity_rel(game_board@, r@),
{
    let ghost orig = game_board@;
    let mut b = game_board;
    loop
        invariant
            orig == game_board@,
            b.wf(),
            b.height == game_board.height,
            b.width == game_board.width,
            b.height >= 1,
            same_dims(orig, b@),
            blockers_fixed(orig, b@),
            forall|k: int|
                0 <= k < gwidth(orig) ==> pos_seq(#[trigger] col(b@, k)) == pos_seq(col(orig, k)),
            forall|k: int, i: int|
                0 <= k < gwidth(orig) && 0 <= i < orig.len() && orig[i][k] < 0 ==> pos_seq(
                    #[trigger] col(b@, k).take(i),
                ) == pos_seq(col(orig, k).take(i)),
        decreases grid_pot(b@),
    {
        let mut moved = false;
        let ghost pass0 = b@;
        let mut y: usize = b.height - 1;
        while y > 0
            invariant
                orig == game_board@,
                b.wf(),
                b.height == game_board.height,
                b.width == game_board.width,
                b.height >= 1,
                y <= b.height - 1,
                same_dims(orig, b@),
                blockers_fixed(orig, b@),
                forall|k: int|
                    0 <= k < gwidth(orig) ==> pos_seq(#[trigger] col(b@, k)) == pos_seq(
                        col(orig, k),
                    ),
                forall|k: int, i: int|
                    0 <= k < gwidth(orig) && 0 <= i < orig.len() && orig[i][k] < 0 ==> pos_seq(
                        #[trigger] col(b@, k).take(i),
                    ) == pos_seq(col(orig, k).take(i)),
                grid_pot(b@) <= grid_pot(pass0),
                moved ==> grid_pot(b@) < grid_pot(pass0),
                !moved ==> b@ == pass0,
                !moved ==> forall|yy: int, xx: int|
                    y <= yy < b.height - 1 && 0 <= xx < b.width ==> !(#[trigger] b@[yy][xx] > 0
                        && b@[yy + 1][xx] == 0),
            decreases y,
        {
            y = y - 1;
            let mut x: usize = 0;
            while x < b.width
                invariant
                    orig == game_board@,
                    b.wf(),
                    b.height == game_board.height,
                    b.width == game_board.width,
                    b.height >= 1,
                    y < b.height - 1,
                    x <= b.width,
                    same_dims(orig, b@),
                    blockers_fixed(orig, b@),
                    forall|k: int|
                        0 <= k < gwidth(orig) ==> pos_seq(#[trigger] col(b@, k)) == pos_seq(
                            col(orig, k),
                        ),
                    forall|k: int, i: int|
                        0 <= k < gwidth(orig) && 0 <= i < orig.len() && orig[i][k] < 0 ==> pos_seq(
                            #[trigger] col(b@, k).take(i),
                        ) == pos_seq(col(orig, k).take(i)),
                    grid_pot(b@) <= grid_pot(pass0),
                    moved ==> grid_pot(b@) < grid_pot(pass0),
                    !moved ==> b@ == pass0,
                    !moved ==> forall|yy: int, xx: int|
                        y < yy < b.height - 1 && 0 <= xx < b.width ==> !(#[trigger] b@[yy][xx] > 0
                            && b@[yy + 1][xx] == 0),
                    !moved ==> forall|xx: int|
                        0 <= xx < x ==> !(#[trigger] b@[y as int][xx] > 0 && b@[y as int + 1][xx]
                            == 0),
                decreases b.width - x,
            {
                if b.get(y, x) > 0 && b.get(y + 1, x) == 0 {
                    let v = b.get(y, x);
                    let ghost pre = b@;
                    b.put(y + 1, x, v);
                    b.put(y, x, 0);
                    proof {
                        let yi = y as int;
                        let xi = x as int;
                        let c0 = col(pre, xi);
                        let c1 = col(b@, xi);
                        assert(c1 =~= c0.update(yi, 0isize).update(yi + 1, v));
                        lemma_move_down_pos_seq(c0, yi);
                        assert(forall|k: int|
                            0 <= k < gwidth(orig) && k != xi ==> #[trigger] col(b@, k) =~= col(
                                pre,
                                k,
                            ));
                        // A tile falls only past air, never past a blocker:
                        // every prefix of the column that ends at a blocker
                        // keeps its positive values too.
                        assert forall|i: int|
                            0 <= i < orig.len() && orig[i][xi] < 0 implies pos_seq(
                            c1.take(i),
                        ) == pos_seq(c0.take(i)) by {
                            assert(pre[i][xi] < 0);
                            assert(i != yi && i != yi + 1);
                            if i <= yi {
                                assert(c1.take(i) =~= c0.take(i));
                            } else {
                                assert(c1.take(i) =~= c0.take(i).update(yi, 0isize).update(
                                    yi + 1,
                                    v,
                                ));
                                assert(c0.take(i)[yi] == v && c0.take(i)[yi + 1] == 0isize);
                                lemma_move_down_pos_seq(c0.take(i), yi);
                            }
                        }
                        // The fall potential of the touched column falls by one.
                        let c0u = c0.update(yi, 0isize);
                        lemma_fall_pot_update(c0, yi, 0isize);
                        assert(c0[yi] == v && v > 0);
                        assert(fall_pot(c0u) + (c0.len() - 1 - yi) == fall_pot(c0));
                        lemma_fall_pot_update(c0u, yi + 1, v);
                        assert(c0u[yi + 1] == 0isize);
                        assert(fall_pot(c0u.update(yi + 1, v)) == fall_pot(c0u) + (c0u.len() - 1
                            - (yi + 1)));
                        assert(fall_pot(c1) + 1 == fall_pot(c0));
                        assert(gwidth(b@) == gwidth(pre) && gwidth(pre) == gwidth(orig));
                        lemma_pot_cols_le(pre, b@, gwidth(pre));
                        assert(grid_pot(b@) < grid_pot(pre));
                    }
                    moved = true;
                }
                x = x + 1;
            }
            proof {
                if !moved {
                    assert forall|xx: int|
                        0 <= xx < b.width implies !(#[trigger] b@[y as int][xx] > 0 && b@[y as int
                        + 1][xx] == 0) by {}
                }
            }
        }
        if !moved {
            proof {
                assert(settled(b@)) by {
                    assert(forall|yy: int, xx: int|
                        0 <= yy < b.height - 1 && 0 <= xx < b.width ==> !(#[trigger] b@[yy][xx] > 0
                            && b@[yy + 1][xx] == 0));
                }
                assert(gravity_rel(orig, b@));
            }
            return b;
        }
    }
}

/// Resolve the board to its cascade fixed point: find the marked cells,
/// clear them, let the tiles fall, and repeat until nothing is marked.
/// A board with no match comes back unchanged, and `cascade_rel` admits
/// exactly one result (`lemma_cascade_deterministic`), so the contract
/// names the one board this returns.
pub fn recalculate_board(game_board: GameBoard) -> (r: GameBoard)
    requires
        game_board.wf(),
    ensures
        r.wf(),
        r.height == game_board.height,
        r.width == game_board.width,
        cascade_rel(game_board@, r@),
        !has_marks(r@),
        !has_marks(game_board@) ==> r@ == game_board@,
{
    let ghost orig = game_board@;
    let mut b = game_board;
    loop
        invariant
            orig == game_board@,
            b.wf(),
            b.height == game_board.height,
            b.width == game_board.width,
            forall|g2: Seq<Seq<isize>>| #[trigger]
                cascade_rel(b@, g2) ==> cascade_rel(orig, g2),
            !has_marks(orig) ==> b@ == orig,
        decreases count_pos(b@),
    {
        let marks = check_what_blocks_to_remove(&b);
        let mut any = false;
        let mut y: usize = 0;
        while y < b.height && !any
            invariant
                b.wf(),
                marks@.len() == b.height,
                forall|i: int| 0 <= i < b.height ==> (#[trigger] marks@[i])@.len() == b.width,
                forall|i: int, j: int|
                    0 <= i < b.height && 0 <= j < b.width ==> (#[trigger] marks@[i]@[j])
                        == if board_marked(b@, i, j) {
                        1usize
                    } else {
                        0usize
                    },
                y <= b.height,
                any ==> has_marks(b@),
                !any ==> forall|i: int, j: int|
                    0 <= i < y && 0 <= j < b.width ==> !board_marked(b@, i, j),
            decreases b.height - y,
        {
            let row_marks: &Vec<usize> = &marks[y];
            let mut x: usize = 0;
            while x < b.width && !any
                invariant
                    b.wf(),
                    y < b.height,
                    x <= b.width,
                    marks@.len() == b.height,
                    forall|i: int, j: int|
                        0 <= i < b.height && 0 <= j < b.width ==> (#[trigger] marks@[i]@[j])
                            == if board_marked(b@, i, j) {
                            1usize
                        } else {
                            0usize
                        },
                    row_marks@ == marks@[y as int]@,
                    row_marks@.len() == b.width,
                    any ==> has_marks(b@),
                    !any ==> forall|i: int, j: int|
                        0 <= i < b.height && 0 <= j < b.width && (i < y || (i == y && j < x))
                            ==> !board_marked(b@, i, j),
                decreases b.width - x,
            {
                if row_marks[x] == 1 {
                    any = true;
                }
                x = x + 1;
            }
            y = y + 1;
        }
        if !any {
            proof {
                assert(!has_marks(b@)) by {
                    if has_marks(b@) {
                        let (yy, xx) = choose|yy: int, xx: int| board_marked(b@, yy, xx);
                        lemma_marked_positive(b@, yy, xx);
                    }
                }
                assert(cascade_n(b@, b@, 0));
                assert(cascade_rel(b@, b@));
                assert(cascade_rel(orig, b@));
            }
            return b;
        }
        let ghost prev = b@;
        proof {
            // `any` found a mark, so a cleared tile makes the count fall.
            assert(has_marks(prev));
            assert(rect(prev));
        }
        b = remove_given_blocks(b, marks);
        proof {
            assert(b@ =~~= clear_of(prev));
        }
        b = calculate_gravity(b);
        proof {
            assert(gravity_rel(clear_of(prev), b@));
            assert forall|g2: Seq<Seq<isize>>| #[trigger]
                cascade_rel(b@, g2) implies cascade_rel(prev, g2) by {
                let n = choose|n: nat| cascade_n(b@, g2, n);
                assert(cascade_n(prev, g2, n + 1));
            }
            lemma_clear_decreases(prev);
            lemma_gravity_preserves_count(clear_of(prev), b@);
            assert(count_pos(b@) < count_pos(prev));
        }
    }
}

} // verus!
