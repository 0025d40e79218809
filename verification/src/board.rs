//! The board: a rectangular grid of cells, and the swap of two cells.

use vstd::prelude::*;

verus! {

/// A rectangular puzzle board.  `board[y][x]` is the cell in row `y`,
/// column `x`; row `0` is the top row.  A cell holds `0` for air, a color
/// in `1..=10` for a movable tile, or a negative value for a blocker.
pub struct GameBoard {
    pub height: usize,
    pub width: usize,
    pub board: Vec<Vec<isize>>,
}

/// An ordered pair of cell coordinates whose contents are exchanged.
#[derive(Clone, Copy)]
pub struct Swap {
    pub y1: usize,
    pub x1: usize,
    pub y2: usize,
    pub x2: usize,
}

impl View for GameBoard {
    type V = Seq<Seq<isize>>;

    open spec fn view(&self) -> Seq<Seq<isize>> {
        self.board@.map_values(|r: Vec<isize>| r@)
    }
}

/// The grid is rectangular with the stated dimensions and every cell is at
/// most `10`, so that a positive cell is always one of the ten colors.
pub open spec fn grid_wf(g: Seq<Seq<isize>>, h: int, w: int) -> bool {
    &&& g.len() == h
    &&& forall|y: int| 0 <= y < h ==> (#[trigger] g[y]).len() == w
    &&& forall|y: int, x: int| 0 <= y < h && 0 <= x < w ==> #[trigger] g[y][x] <= 10
}

pub open spec fn in_grid(g: Seq<Seq<isize>>, y: int, x: int) -> bool {
    0 <= y < g.len() && 0 <= x < g[y].len()
}

impl GameBoard {
    pub open spec fn wf(&self) -> bool {
        grid_wf(self@, self.height as int, self.width as int)
    }

    /// Read the cell in row `y`, column `x`.
    pub fn get(&self, y: usize, x: usize) -> (v: isize)
        requires
            in_grid(self@, y as int, x as int),
        ensures
            v == self@[y as int][x as int],
    {
        self.board[y][x]
    }

    /// Write `v` into the cell in row `y`, column `x`.
    pub fn put(&mut self, y: usize, x: usize, v: isize)
        requires
            in_grid(old(self)@, y as int, x as int),
        ensures
            final(self).height == old(self).height,
            final(self).width == old(self).width,
            final(self)@ == old(self)@.update(y as int, old(self)@[y as int].update(x as int, v)),
    {
        let mut row: Vec<isize> = self.board.remove(y);
        row.set(x, v);
        self.board.insert(y, row);
        proof {
            assert(self@ =~= old(self)@.update(y as int, old(self)@[y as int].update(x as int, v)));
        }
    }

    /// An independent deep copy; each branch of the search owns one.
    pub fn copy_of(&self) -> (r: GameBoard)
        ensures
            r@ == self@,
            r.height == self.height,
            r.width == self.width,
    {
        let mut rows: Vec<Vec<isize>> = Vec::new();
        let mut y: usize = 0;
        while y < self.board.len()
            invariant
                y <= self.board.len(),
                rows@.len() == y,
                forall|i: int| 0 <= i < y ==> #[trigger] rows@[i]@ == self@[i],
            decreases self.board.len() - y,
        {
            let src: &Vec<isize> = &self.board[y];
            let mut row: Vec<isize> = Vec::new();
            let mut x: usize = 0;
            while x < src.len()
                invariant
                    x <= src.len(),
                    row@.len() == x,
                    forall|j: int| 0 <= j < x ==> #[trigger] row@[j] == src@[j],
                decreases src.len() - x,
            {
                row.push(src[x]);
                x = x + 1;
            }
            proof {
                assert(row@ =~= src@);
            }
            rows.push(row);
            y = y + 1;
        }
        let r = GameBoard { height: self.height, width: self.width, board: rows };
        proof {
            assert(r@ =~= self@);
        }
        r
    }
}

} // verus!
