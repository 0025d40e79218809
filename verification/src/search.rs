//! The search engine: enumerate candidate swaps, validate them, execute
//! each valid one on an independent copy of the board, and recurse until
//! the board is cleared or every branch is exhausted.

use vstd::prelude::*;

use crate::board::GameBoard;
use crate::board::Swap;
use crate::board::in_grid;
use crate::cascade::cascade_n;
use crate::cascade::cascade_rel;
use crate::cascade::lemma_cascade_count;
use crate::cascade::lemma_cascade_deterministic;
use crate::cascade::lemma_cascade_keeps_scarce;
use crate::cascade::lemma_cascade_shape;
use crate::cascade::recalculate_board;
use crate::cascade::rect;
use crate::counting::count_pos;
use crate::counting::lemma_count_pos_update;
use crate::goal::check_for_loss;
use crate::goal::check_for_win;
use crate::goal::cleared;
use crate::goal::color_count;
use crate::goal::lemma_cleared_color_zero;
use crate::goal::lemma_color_count_update;
use crate::goal::loss_spec;
use crate::matching::check_if_blocks_removed;
use crate::matching::has_marks;
use crate::matching::matched_at;

verus! {

/// Both swapped cells lie on the board.
pub open spec fn swap_in_bounds(g: Seq<Seq<isize>>, s: Swap) -> bool {
    in_grid(g, s.y1 as int, s.x1 as int) && in_grid(g, s.y2 as int, s.x2 as int)
}

/// The grid after exchanging the two cells of `s`.
pub open spec fn swapped(g: Seq<Seq<isize>>, s: Swap) -> Seq<Seq<isize>> {
    let y1 = s.y1 as int;
    let x1 = s.x1 as int;
    let y2 = s.y2 as int;
    let x2 = s.x2 as int;
    let a = g[y1][x1];
    let b = g[y2][x2];
    let g1 = g.update(y1, g[y1].update(x1, b));
    g1.update(y2, g1[y2].update(x2, a))
}

/// A candidate swap is valid when its target cell lies on the board and
/// holds a tile, and performing the swap creates a match of three at one of
/// the two swapped cells.
pub open spec fn valid_move(g: Seq<Seq<isize>>, s: Swap) -> bool {
    &&& (s.y2 as int) < g.len()
    &&& (s.x2 as int) < g[s.y2 as int].len()
    &&& g[s.y2 as int][s.x2 as int] >= 1
    &&& (matched_at(swapped(g, s), s.y1 as int, s.x1 as int) || matched_at(
        swapped(g, s),
        s.y2 as int,
        s.x2 as int,
    ))
}

/// The sequence of swaps `ms`, played in order from the grid `g`, is legal
/// and ends with a cleared board: each swap starts at a tile, is valid, and
/// is followed by a cascade to a fixed point before the next swap.
pub open spec fn play_solves(g: Seq<Seq<isize>>, ms: Seq<Swap>) -> bool
    decreases ms.len(),
{
    if ms.len() == 0 {
        cleared(g)
    } else {
        let s = ms[0];
        &&& swap_in_bounds(g, s)
        &&& g[s.y1 as int][s.x1 as int] > 0
        &&& valid_move(g, s)
        &&& exists|g2: Seq<Seq<isize>>| #[trigger]
            cascade_rel(swapped(g, s), g2) && play_solves(g2, ms.drop_first())
    }
}

/// A swap exchanges two cells, so it keeps the count of every color.
proof fn lemma_swap_keeps_colors(g: Seq<Seq<isize>>, s: Swap, c: int)
    requires
        swap_in_bounds(g, s),
    ensures
        color_count(swapped(g, s), c) == color_count(g, c),
{
    let y1 = s.y1 as int;
    let x1 = s.x1 as int;
    let y2 = s.y2 as int;
    let x2 = s.x2 as int;
    let g1 = g.update(y1, g[y1].update(x1, g[y2][x2]));
    lemma_color_count_update(g, y1, x1, g[y2][x2], c);
    lemma_color_count_update(g1, y2, x2, g[y1][x1], c);
    assert(g1[y2][x2] == g[y2][x2]);
}

/// The loss test is sound: on a board where some color has exactly one or
/// two tiles, no sequence of moves ever clears the board, so pruning such a
/// node discards no solution.  A swap permutes cells and a cascade never
/// clears a tile of a color with fewer than three, so that color's tiles
/// outlive every move, while a cleared board would hold none of them.
pub proof fn lemma_loss_detector_sound(g: Seq<Seq<isize>>, ms: Seq<Swap>)
    requires
        rect(g),
        loss_spec(g),
    ensures
        !play_solves(g, ms),
{
    let c = choose|c: int| 1 <= c <= 10 && 1 <= #[trigger] color_count(g, c) <= 2;
    lemma_scarce_color_no_play(g, ms, c);
}

proof fn lemma_scarce_color_no_play(g: Seq<Seq<isize>>, ms: Seq<Swap>, c: int)
    requires
        rect(g),
        c >= 1,
        1 <= color_count(g, c) <= 2,
    ensures
        !play_solves(g, ms),
    decreases ms.len(),
{
    if ms.len() == 0 {
        if play_solves(g, ms) {
            lemma_cleared_color_zero(g, c);
        }
    } else if play_solves(g, ms) {
        let s = ms[0];
        let gsw = swapped(g, s);
        lemma_swap_keeps_colors(g, s, c);
        assert(rect(gsw)) by {
            assert(gsw.len() == g.len());
            assert(forall|y: int| 0 <= y < g.len() ==> (#[trigger] gsw[y]).len() == g[y].len());
            assert(crate::counting::gwidth(gsw) == crate::counting::gwidth(g));
        }
        let g2 = choose|g2: Seq<Seq<isize>>| #[trigger]
            cascade_rel(gsw, g2) && play_solves(g2, ms.drop_first());
        let n = choose|n: nat| cascade_n(gsw, g2, n);
        lemma_cascade_keeps_scarce(gsw, g2, n, c);
        lemma_cascade_shape(gsw, g2, n);
        lemma_scarce_color_no_play(g2, ms.drop_first(), c);
    }
}

/// Whether swapping the two cells of `swap` creates an immediate match at
/// either swapped cell.  The swap is performed in place, the two cells are
/// tested, and the swap is undone, so the board always comes back exactly
/// as it was.
pub fn check_if_valid_move(game_board: &mut GameBoard, swap: Swap) -> (r: bool)
    requires
        old(game_board).wf(),
        in_grid(old(game_board)@, swap.y1 as int, swap.x1 as int),
    ensures
        final(game_board)@ == old(game_board)@,
        final(game_board).height == old(game_board).height,
        final(game_board).width == old(game_board).width,
        r == valid_move(old(game_board)@, swap),
{
    let ghost g0 = game_board@;
    // The swap must stay on the board.
    if swap.y2 >= game_board.height || swap.x2 >= game_board.width {
        return false;
    }
    // The other end must be a tile, not air or a blocker.
    if game_board.get(swap.y2, swap.x2) < 1 {
        return false;
    }
    // Exchange the two cells.
    let temp_value = game_board.get(swap.y1, swap.x1);
    let other = game_board.get(swap.y2, swap.x2);
    game_board.put(swap.y1, swap.x1, other);
    game_board.put(swap.y2, swap.x2, temp_value);
    proof {
        assert(game_board@ == swapped(g0, swap));
        assert(game_board.wf()) by {
            assert(forall|y: int, x: int|
                0 <= y < game_board.height && 0 <= x < game_board.width
                    ==> #[trigger] game_board@[y][x] <= 10);
        }
    }
    let is_move_valid = check_if_blocks_removed(game_board, swap.y1, swap.x1)
        || check_if_blocks_removed(game_board, swap.y2, swap.x2);
    // Exchange them back.
    let temp_value = game_board.get(swap.y1, swap.x1);
    let other = game_board.get(swap.y2, swap.x2);
    game_board.put(swap.y1, swap.x1, other);
    game_board.put(swap.y2, swap.x2, temp_value);
    proof {
        assert(game_board@ =~~= g0);
    }
    is_move_valid
}

/// Copy a move sequence, so a branch can append to its own.
fn clone_swaps(v: &Vec<Swap>) -> (r: Vec<Swap>)
    ensures
        r@ == v@,
{
    let mut r: Vec<Swap> = Vec::new();
    let mut i: usize = 0;
    while i < v.len()
        invariant
            i <= v@.len(),
            r@ == v@.take(i as int),
        decreases v@.len() - i,
    {
        r.push(v[i]);
        proof {
            assert(r@ =~= v@.take(i as int + 1));
        }
        i = i + 1;
    }
    proof {
        assert(v@.take(v@.len() as int) =~= v@);
    }
    r
}

/// The swap reaches down or right from its first cell: the engine proposes
/// exactly these, since an up or left swap is the other cell's down or
/// right swap.
pub open spec fn down_right(s: Swap) -> bool {
    (s.y2 == s.y1 + 1 && s.x2 == s.x1) || (s.y2 == s.y1 && s.x2 == s.x1 + 1)
}

/// Every swap of the sequence reaches down or right.
pub open spec fn down_right_play(ms: Seq<Swap>) -> bool {
    forall|i: int| 0 <= i < ms.len() ==> down_right(#[trigger] ms[i])
}

/// No sequence of down-or-right swaps solves the board.
pub open spec fn no_engine_solution(g: Seq<Seq<isize>>) -> bool {
    forall|ms: Seq<Swap>|
        ms.len() > 0 && down_right_play(ms) ==> !(#[trigger] play_solves(g, ms))
}

/// Performing the swap leads to a board that is neither cleared by the
/// cascade nor solvable by any further engine play.
pub open spec fn branch_dead(g: Seq<Seq<isize>>, s: Swap) -> bool {
    forall|g2: Seq<Seq<isize>>| #[trigger]
        cascade_rel(swapped(g, s), g2) ==> !cleared(g2) && no_engine_solution(g2)
}


/// The same swap written from its other end.
pub open spec fn flip(s: Swap) -> Swap {
    Swap { y1: s.y2, x1: s.x2, y2: s.y1, x2: s.x1 }
}

/// The two cells are orthogonally adjacent, in either order.
pub open spec fn adjacent(s: Swap) -> bool {
    down_right(s) || down_right(flip(s))
}

/// Every swap of the sequence exchanges adjacent cells.
pub open spec fn adjacent_play(ms: Seq<Swap>) -> bool {
    forall|i: int| 0 <= i < ms.len() ==> adjacent(#[trigger] ms[i])
}

/// A swap reads the same from either end.
proof fn lemma_swapped_flip(g: Seq<Seq<isize>>, s: Swap)
    requires
        swap_in_bounds(g, s),
    ensures
        swapped(g, flip(s)) == swapped(g, s),
{
    let a = swapped(g, s);
    let b = swapped(g, flip(s));
    assert(a.len() == b.len());
    assert forall|y: int| 0 <= y < a.len() implies #[trigger] a[y] == b[y] by {
        assert(a[y] =~= b[y]);
    }
    assert(a =~= b);
}

/// A legal swap between two tiles stays legal read from the other end.
proof fn lemma_valid_move_flip(g: Seq<Seq<isize>>, s: Swap)
    requires
        swap_in_bounds(g, s),
        g[s.y1 as int][s.x1 as int] > 0,
        valid_move(g, s),
    ensures
        swap_in_bounds(g, flip(s)),
        g[flip(s).y1 as int][flip(s).x1 as int] > 0,
        valid_move(g, flip(s)),
{
    lemma_swapped_flip(g, s);
}

/// A play of adjacent swaps, rewritten so every swap reaches down or right,
/// is the same play: it visits the same boards and wins the same way.
proof fn lemma_play_canonical(g: Seq<Seq<isize>>, ms: Seq<Swap>)
    requires
        play_solves(g, ms),
        adjacent_play(ms),
    ensures
        play_solves(
            g,
            ms.map_values(
                |s: Swap|
                    if down_right(s) {
                        s
                    } else {
                        flip(s)
                    },
            ),
        ),
        down_right_play(
            ms.map_values(
                |s: Swap|
                    if down_right(s) {
                        s
                    } else {
                        flip(s)
                    },
            ),
        ),
    decreases ms.len(),
{
    let f = |s: Swap|
        if down_right(s) {
            s
        } else {
            flip(s)
        };
    let cms = ms.map_values(f);
    assert(cms.len() == ms.len());
    if ms.len() == 0 {
        assert(play_solves(g, cms));
    } else {
        let s = ms[0];
        let cs = cms[0];
        assert(cs == f(s));
        assert(adjacent(s));
        assert(down_right(cs));
        if !down_right(s) {
            lemma_valid_move_flip(g, s);
            lemma_swapped_flip(g, s);
        }
        assert(swapped(g, cs) == swapped(g, s));
        assert(swap_in_bounds(g, cs) && g[cs.y1 as int][cs.x1 as int] > 0 && valid_move(g, cs));
        let g2 = choose|g2: Seq<Seq<isize>>| #[trigger]
            cascade_rel(swapped(g, s), g2) && play_solves(g2, ms.drop_first());
        assert(adjacent_play(ms.drop_first())) by {
            assert(forall|i: int|
                0 <= i < ms.drop_first().len() ==> #[trigger] ms.drop_first()[i] == ms[i + 1]);
        }
        lemma_play_canonical(g2, ms.drop_first());
        assert(ms.drop_first().map_values(f) =~= cms.drop_first());
        assert(cascade_rel(swapped(g, cs), g2) && play_solves(g2, cms.drop_first()));
        assert(play_solves(g, cms));
    }
}

/// The engine's enumeration loses nothing by proposing only down and right
/// swaps: a board with no down-or-right solution has no solution by
/// adjacent swaps at all, since an up or left swap is its reverse read from
/// the other end.
pub proof fn lemma_no_adjacent_solution(g: Seq<Seq<isize>>, ms: Seq<Swap>)
    requires
        no_engine_solution(g),
        ms.len() > 0,
        adjacent_play(ms),
    ensures
        !play_solves(g, ms),
{
    if play_solves(g, ms) {
        lemma_play_canonical(g, ms);
        let f = |s: Swap|
            if down_right(s) {
                s
            } else {
                flip(s)
            };
        assert(play_solves(g, ms.map_values(f)));
        assert(ms.map_values(f).len() > 0);
    }
}

/// A suffix whose head reaches down or right and whose tail does too is a
/// down-or-right play throughout.
proof fn lemma_suffix_down_right(ms: Seq<Swap>, len0: int, s: Swap)
    requires
        0 <= len0 < ms.len(),
        ms[len0] == s,
        down_right(s),
        down_right_play(ms.skip(len0 + 1)),
    ensures
        down_right_play(ms.skip(len0)),
{
    assert forall|i: int| 0 <= i < ms.skip(len0).len() implies down_right(
        #[trigger] ms.skip(len0)[i],
    ) by {
        if i == 0 {
            assert(ms.skip(len0)[0] == ms[len0]);
        } else {
            assert(ms.skip(len0)[i] == ms.skip(len0 + 1)[i - 1]);
        }
    }
}

/// Execute one validated move: perform the swap, append it to the move
/// sequence, resolve the cascade, and either report the sequence as the
/// solution when the board is cleared or search on from the settled board.
/// `None` means this whole branch holds no solution.
pub fn execute_move(game_board: GameBoard, swap: Swap, moves_to_solve: Vec<Swap>) -> (r: Option<
    Vec<Swap>,
>)
    requires
        game_board.wf(),
        in_grid(game_board@, swap.y1 as int, swap.x1 as int),
        game_board@[swap.y1 as int][swap.x1 as int] > 0,
        valid_move(game_board@, swap),
    ensures
        r is Some ==> r->Some_0@.len() > moves_to_solve@.len() && r->Some_0@.take(
            moves_to_solve@.len() as int,
        ) == moves_to_solve@ && r->Some_0@[moves_to_solve@.len() as int] == swap && play_solves(
            game_board@,
            r->Some_0@.skip(moves_to_solve@.len() as int),
        ),
        r is Some ==> down_right_play(r->Some_0@.skip(moves_to_solve@.len() as int + 1)),
        r is None ==> branch_dead(game_board@, swap),
    decreases count_pos(game_board@), 0nat,
{
    let ghost g0 = game_board@;
    let ghost len0 = moves_to_solve@.len() as int;
    let mut b = game_board;
    // Exchange the two cells.
    let temp_value = b.get(swap.y1, swap.x1);
    let other = b.get(swap.y2, swap.x2);
    b.put(swap.y1, swap.x1, other);
    b.put(swap.y2, swap.x2, temp_value);
    proof {
        assert(b@ == swapped(g0, swap));
        assert(b.wf()) by {
            assert(forall|y: int, x: int|
                0 <= y < b.height && 0 <= x < b.width ==> #[trigger] b@[y][x] <= 10);
        }
        // The swap only exchanges two cells, so the count of tiles is kept.
        let y1 = swap.y1 as int;
        let x1 = swap.x1 as int;
        let y2 = swap.y2 as int;
        let x2 = swap.x2 as int;
        let g1 = g0.update(y1, g0[y1].update(x1, g0[y2][x2]));
        lemma_count_pos_update(g0, y1, x1, g0[y2][x2]);
        lemma_count_pos_update(g1, y2, x2, g0[y1][x1]);
        assert(g1[y2][x2] == g0[y2][x2]);
        assert(count_pos(b@) == count_pos(g0));
        // The move was valid, so the swapped board has a match, and the
        // marking pass will find something to clear.
        if matched_at(b@, y1, x1) {
            assert(crate::matching::board_marked(b@, y1, x1));
        } else {
            assert(crate::matching::board_marked(b@, y2, x2));
        }
        assert(has_marks(b@));
    }
    // Record the move this branch takes.
    let mut moves_to_solve = moves_to_solve;
    moves_to_solve.push(swap);
    // Resolve the chain reactions the swap set off.
    let ghost gs = b@;
    proof {
        assert(rect(gs)) by {
            assert(crate::counting::gwidth(gs) == b.width as int);
        }
    }
    let b2 = recalculate_board(b);
    proof {
        let n = choose|n: nat| cascade_n(gs, b2@, n);
        lemma_cascade_count(gs, b2@, n);
        assert(count_pos(b2@) < count_pos(g0));
    }
    // The goal test: a cleared board ends this branch with success.
    if check_for_win(&b2) {
        proof {
            assert(moves_to_solve@.skip(len0) =~= seq![swap]);
            assert(seq![swap].drop_first() =~= Seq::<Swap>::empty());
            assert(play_solves(b2@, seq![swap].drop_first()));
            assert(play_solves(g0, seq![swap]));
            assert(moves_to_solve@.take(len0) =~= moves_to_solve@.subrange(0, len0));
            assert(moves_to_solve@.skip(len0 + 1) =~= Seq::<Swap>::empty());
        }
        return Some(moves_to_solve);
    }
    let res = solve(b2, moves_to_solve);
    proof {
        if res is Some {
            let ms = res->Some_0@;
            assert(ms.take(len0 + 1)[len0] == swap);
            assert(ms[len0] == swap);
            assert(ms.take(len0) =~= ms.take(len0 + 1).take(len0));
            assert(ms.skip(len0)[0] == swap);
            assert(ms.skip(len0).drop_first() =~= ms.skip(len0 + 1));
            assert(play_solves(g0, ms.skip(len0)));
            assert(down_right_play(ms.skip(len0 + 1)));
        } else {
            // The one cascade outcome of this swap is not cleared and
            // admits no further solution, so neither does any outcome.
            assert forall|g2: Seq<Seq<isize>>| #[trigger]
                cascade_rel(gs, g2) implies !cleared(g2) && no_engine_solution(g2) by {
                lemma_cascade_deterministic(gs, g2, b2@);
            }
        }
    }
    res
}

/// One level of the search: prune with the loss test, enumerate each
/// candidate swap of every tile with the cell below it and the cell to its
/// right, validate each candidate, and execute the valid ones on copies of
/// the board, returning the first solution found.  `None` says more than
/// that the search gave up: the loss test is sound and the enumeration
/// reaches every swap the engine admits, so no sequence of engine moves
/// solves this board.
pub fn solve(game_board: GameBoard, moves_to_solve: Vec<Swap>) -> (r: Option<Vec<Swap>>)
    requires
        game_board.wf(),
    ensures
        r is Some ==> r->Some_0@.len() >= moves_to_solve@.len() && r->Some_0@.take(
            moves_to_solve@.len() as int,
        ) == moves_to_solve@ && play_solves(
            game_board@,
            r->Some_0@.skip(moves_to_solve@.len() as int),
        ),
        r is Some ==> down_right_play(r->Some_0@.skip(moves_to_solve@.len() as int)),
        loss_spec(game_board@) ==> r is None,
        r is None ==> no_engine_solution(game_board@),
    decreases count_pos(game_board@), 1nat,
{
    let ghost g = game_board@;
    proof {
        assert(rect(g)) by {
            if g.len() > 0 {
                assert(crate::counting::gwidth(g) == game_board.width as int);
            }
        }
    }
    // A color with only one or two tiles left can never be cleared.
    if check_for_loss(&game_board) {
        proof {
            assert forall|ms: Seq<Swap>|
                ms.len() > 0 && down_right_play(ms) implies !(#[trigger] play_solves(g, ms)) by {
                lemma_loss_detector_sound(g, ms);
            }
        }
        return None;
    }
    let mut b = game_board;
    let mut y: usize = 0;
    while y < b.height
        invariant
            b.wf(),
            b@ == game_board@,
            b.height == game_board.height,
            b.width == game_board.width,
            y <= b.height,
            !loss_spec(game_board@),
            count_pos(b@) == count_pos(game_board@),
            forall|s: Swap|
                down_right(s) && (s.y1 as int) < y as int && in_grid(b@, s.y1 as int, s.x1 as int)
                    && b@[s.y1 as int][s.x1 as int] > 0 && #[trigger] valid_move(b@, s)
                    ==> branch_dead(b@, s),
        decreases b.height - y,
    {
        let mut x: usize = 0;
        while x < b.width
            invariant
                b.wf(),
                b@ == game_board@,
                b.height == game_board.height,
                b.width == game_board.width,
                y < b.height,
                x <= b.width,
                !loss_spec(game_board@),
                count_pos(b@) == count_pos(game_board@),
                forall|s: Swap|
                    down_right(s) && ((s.y1 as int) < y as int || (s.y1 == y && (s.x1 as int)
                        < x as int)) && in_grid(b@, s.y1 as int, s.x1 as int) && b@[s.y1 as int][s.x1 as int]
                        > 0 && #[trigger] valid_move(b@, s) ==> branch_dead(b@, s),
            decreases b.width - x,
        {
            if b.get(y, x) > 0 {
                // A swap with the cell below; swaps with the cell above are
                // the other cell's down-swap.
                let swap_down = Swap { y1: y, x1: x, y2: y + 1, x2: x };
                let ghost mut down_dead = false;
                if check_if_valid_move(&mut b, swap_down) {
                    let branch_board = b.copy_of();
                    let branch_moves = clone_swaps(&moves_to_solve);
                    let res = execute_move(branch_board, swap_down, branch_moves);
                    if res.is_some() {
                        proof {
                            lemma_suffix_down_right(
                                res->Some_0@,
                                moves_to_solve@.len() as int,
                                swap_down,
                            );
                        }
                        return res;
                    }
                    proof {
                        down_dead = true;
                        assert(branch_dead(b@, swap_down));
                    }
                }
                // A swap with the cell to the right; swaps with the cell to
                // the left are the other cell's right-swap.
                let swap_right = Swap { y1: y, x1: x, y2: y, x2: x + 1 };
                let ghost mut right_dead = false;
                if check_if_valid_move(&mut b, swap_right) {
                    let branch_board = b.copy_of();
                    let branch_moves = clone_swaps(&moves_to_solve);
                    let res = execute_move(branch_board, swap_right, branch_moves);
                    if res.is_some() {
                        proof {
                            lemma_suffix_down_right(
                                res->Some_0@,
                                moves_to_solve@.len() as int,
                                swap_right,
                            );
                        }
                        return res;
                    }
                    proof {
                        right_dead = true;
                        assert(branch_dead(b@, swap_right));
                    }
                }
                proof {
                    assert forall|s: Swap|
                        down_right(s) && ((s.y1 as int) < y as int || (s.y1 == y && (s.x1 as int)
                            < x as int + 1)) && in_grid(b@, s.y1 as int, s.x1 as int)
                            && b@[s.y1 as int][s.x1 as int] > 0 && #[trigger] valid_move(
                            b@,
                            s,
                        ) implies branch_dead(b@, s) by {
                        if s.y1 == y && s.x1 == x {
                            if s.y2 == s.y1 + 1 && s.x2 == s.x1 {
                                assert(s == swap_down);
                                assert(down_dead);
                            } else {
                                assert(s == swap_right);
                                assert(right_dead);
                            }
                        }
                    }
                }
            } else {
                proof {
                    assert forall|s: Swap|
                        down_right(s) && ((s.y1 as int) < y as int || (s.y1 == y && (s.x1 as int)
                            < x as int + 1)) && in_grid(b@, s.y1 as int, s.x1 as int)
                            && b@[s.y1 as int][s.x1 as int] > 0 && #[trigger] valid_move(
                            b@,
                            s,
                        ) implies branch_dead(b@, s) by {
                        if s.y1 == y && s.x1 == x {
                            assert(false);
                        }
                    }
                }
            }
            x = x + 1;
        }
        proof {
            assert forall|s: Swap|
                down_right(s) && (s.y1 as int) < y as int + 1 && in_grid(b@, s.y1 as int, s.x1 as int)
                    && b@[s.y1 as int][s.x1 as int] > 0 && #[trigger] valid_move(
                    b@,
                    s,
                ) implies branch_dead(b@, s) by {
                if s.y1 == y {
                    assert((s.x1 as int) < b.width as int);
                }
            }
        }
        y = y + 1;
    }
    proof {
        // Every swap a play could start with was enumerated and found dead.
        assert forall|ms: Seq<Swap>|
            ms.len() > 0 && down_right_play(ms) implies !(#[trigger] play_solves(g, ms)) by {
            if play_solves(g, ms) {
                let s = ms[0];
                assert(down_right(s));
                assert(in_grid(g, s.y1 as int, s.x1 as int) && g[s.y1 as int][s.x1 as int] > 0
                    && valid_move(g, s));
                assert(branch_dead(g, s));
                let g2 = choose|g2: Seq<Seq<isize>>| #[trigger]
                    cascade_rel(swapped(g, s), g2) && play_solves(g2, ms.drop_first());
                assert(!cleared(g2) && no_engine_solution(g2));
                if ms.len() == 1 {
                    assert(ms.drop_first().len() == 0);
                    assert(cleared(g2));
                } else {
                    assert(down_right_play(ms.drop_first())) by {
                        assert(forall|i: int|
                            0 <= i < ms.drop_first().len() ==> #[trigger] ms.drop_first()[i]
                                == ms[i + 1]);
                    }
                    assert(!play_solves(g2, ms.drop_first()));
                }
            }
        }
    }
    None
}

/// Solve a puzzle from its starting board: resolve any matches the board
/// already carries, and if that clears it, the empty move sequence is the
/// solution; otherwise search for a sequence of swaps.  `Some` holds the
/// swaps to play, in order.  `None` declares the board unsolvable: the
/// resolved board is not cleared, and no sequence of engine moves clears
/// it.
pub fn solve_board(game_board: GameBoard) -> (r: Option<Vec<Swap>>)
    requires
        game_board.wf(),
    ensures
        r is Some ==> exists|g0: Seq<Seq<isize>>| #[trigger]
            cascade_rel(game_board@, g0) && play_solves(g0, r->Some_0@),
        r is Some ==> down_right_play(r->Some_0@),
        cleared(game_board@) ==> r is Some && r->Some_0@ == Seq::<Swap>::empty(),
        r is None ==> forall|g0: Seq<Seq<isize>>| #[trigger]
            cascade_rel(game_board@, g0) ==> !cleared(g0) && no_engine_solution(g0),
{
    let ghost g = game_board@;
    proof {
        assert(rect(g)) by {
            if g.len() > 0 {
                assert(crate::counting::gwidth(g) == game_board.width as int);
            }
        }
        if cleared(g) {
            assert(!has_marks(g)) by {
                if has_marks(g) {
                    let (yy, xx) = choose|yy: int, xx: int|
                        crate::matching::board_marked(g, yy, xx);
                    crate::matching::lemma_marked_positive(g, yy, xx);
                }
            }
        }
    }
    let b0 = recalculate_board(game_board);
    let ghost gr = b0@;
    if check_for_win(&b0) {
        let empty_moves: Vec<Swap> = Vec::new();
        proof {
            assert(cascade_rel(g, gr));
            assert(play_solves(gr, empty_moves@));
        }
        return Some(empty_moves);
    }
    let res = solve(b0, Vec::new());
    proof {
        if res is Some {
            let ms = res->Some_0@;
            assert(ms.skip(0) =~= ms);
            assert(cascade_rel(g, gr) && play_solves(gr, ms));
        } else {
            assert forall|g0: Seq<Seq<isize>>| #[trigger]
                cascade_rel(g, g0) implies !cleared(g0) && no_engine_solution(g0) by {
                lemma_cascade_deterministic(g, g0, gr);
            }
        }
    }
    res
}

} // verus!
