//! A grid of tiles that hold one byte each, where a zero byte is an open
//! tile, with the same straight-move walk as the packed grid and the compass
//! direction from one tile to another.
use crate::libs::bitvec::{abs_diff, cell_index, lemma_cell_index};
use crate::libs::bytegrid::{
    lemma_walk_step, last_open_spec, step_toward, walk, walk_at, walk_state,
};
use crate::pathing::direction::{is_compass, step_x, step_y, Direction};
use vstd::prelude::*;

verus! {

/// The sign of `v`: `1`, `0` or `-1`.
pub open spec fn sign(v: int) -> int {
    if v > 0 {
        1
    } else if v == 0 {
        0
    } else {
        -1
    }
}

/// A `w` by `h` grid of tiles, row by row; a zero byte is an open tile.
pub struct ByteGrid {
    pub w: isize,
    pub h: isize,
    vec: Vec<u8>,
}

impl ByteGrid {
    /// The width.
    pub closed spec fn width(&self) -> int {
        self.w as int
    }

    /// The height.
    pub closed spec fn height(&self) -> int {
        self.h as int
    }

    /// The tiles, row by row.
    pub closed spec fn cells(&self) -> Seq<u8> {
        self.vec@
    }

    /// The grid holds one tile for each of its `w * h` positions.
    pub open spec fn wf(&self) -> bool {
        &&& 0 <= self.width() * self.height() <= isize::MAX
        &&& self.cells().len() == self.width() * self.height()
    }

    /// Whether `(x, y)` is inside the grid and open.
    pub open spec fn open_at(&self, x: int, y: int) -> bool {
        &&& 0 <= x < self.width()
        &&& 0 <= y < self.height()
        &&& self.cells()[cell_index(self.width(), x, y)] == 0
    }

    /// The open tiles, as a predicate on positions.
    pub open spec fn open_fn(&self) -> spec_fn(int, int) -> bool {
        |x: int, y: int| self.open_at(x, y)
    }

    /// A grid of `w` columns and `h` rows, every tile open.
    pub fn new(w: isize, h: isize) -> (r: ByteGrid)
        requires
            0 <= w * h <= isize::MAX,
        ensures
            r.wf(),
            r.width() == w,
            r.height() == h,
            r.cells() == Seq::new((w * h) as nat, |i: int| 0u8),
    {
        let n: isize = w * h;
        let mut vec: Vec<u8> = Vec::with_capacity(n as usize);
        let mut i: isize = 0;
        while i < n
            invariant
                0 <= i <= n,
                n == w * h,
                vec@ == Seq::new(i as nat, |k: int| 0u8),
            decreases n - i,
        {
            vec.push(0);
            i = i + 1;
        }
        ByteGrid { w, h, vec }
    }

    /// Whether `(x, y)` lies inside the grid and is open.
    pub fn is_open(&self, p: (isize, isize)) -> (r: bool)
        requires
            self.wf(),
        ensures
            r == self.open_at(p.0 as int, p.1 as int),
    {
        let (x, y) = p;
        if x >= 0 && y >= 0 && x < self.w && y < self.h {
            proof {
                lemma_cell_index(self.w as int, self.h as int, x as int, y as int, x as int, y as int);
            }
            self.vec[(y * self.w + x) as usize] == 0
        } else {
            false
        }
    }

    /// Stores `v` in the tile at `(x, y)`.
    pub fn set_point(&mut self, v: u8, p: (isize, isize))
        requires
            old(self).wf(),
            isize::MIN <= p.1 * old(self).width() <= isize::MAX,
            0 <= cell_index(old(self).width(), p.0 as int, p.1 as int) < old(self).width()
                * old(self).height(),
        ensures
            final(self).wf(),
            final(self).width() == old(self).width(),
            final(self).height() == old(self).height(),
            final(self).cells() == old(self).cells().update(
                cell_index(old(self).width(), p.0 as int, p.1 as int),
                v,
            ),
    {
        let (x, y) = p;
        let ix = (y * self.w + x) as usize;
        self.vec.set(ix, v);
    }

    /// The byte in the tile at `(x, y)`.
    pub fn get_point(&self, p: (isize, isize)) -> (r: u8)
        requires
            self.wf(),
            isize::MIN <= p.1 * self.width() <= isize::MAX,
            0 <= cell_index(self.width(), p.0 as int, p.1 as int) < self.width() * self.height(),
        ensures
            r == self.cells()[cell_index(self.width(), p.0 as int, p.1 as int)],
    {
        let (x, y) = p;
        self.vec[(y * self.w + x) as usize]
    }

    /// How far a move from `p0` toward `p1` gets over open tiles: the end,
    /// if the walk reaches it; the tile it falls back to on meeting a closed
    /// tile; or the tile before a diagonal step between two closed tiles.
    pub fn last_open(&self, p0: (isize, isize), p1: (isize, isize)) -> (r: (isize, isize))
        requires
            self.wf(),
            isize::MIN < p1.0 - p0.0 <= isize::MAX,
            isize::MIN < p1.1 - p0.1 <= isize::MAX,
        ensures
            (r.0 as int, r.1 as int) == last_open_spec(
                self.open_fn(),
                p0.0 as int,
                p0.1 as int,
                p1.0 as int,
                p1.1 as int,
            ),
    {
        let (x0, y0) = p0;
        let (x1, y1) = p1;
        let dx: isize = if x1 >= x0 { x1 - x0 } else { x0 - x1 };
        let dy: isize = if y1 >= y0 { y1 - y0 } else { y0 - y1 };
        let x_inc: isize = if x1 > x0 { 1 } else { -1 };
        let y_inc: isize = if y1 > y0 { 1 } else { -1 };

        let mut x = x0;
        let mut y = y0;
        let mut err = dx - dy;
        let mut prev_x = x;
        let mut prev_y = y;
        let ghost mut sx: int = 0;
        let ghost mut sy: int = 0;
        let ghost mut fuel: nat = (dx + dy + 1) as nat;
        assert(dx * (1 + 0) - dy * (1 + 0) == dx - dy) by (nonlinear_arith);

        loop
            invariant
                self.wf(),
                p0 == (x0, y0),
                p1 == (x1, y1),
                dx == abs_diff(x0 as int, x1 as int),
                dy == abs_diff(y0 as int, y1 as int),
                x_inc == step_toward(x0 as int, x1 as int),
                y_inc == step_toward(y0 as int, y1 as int),
                walk_state(dx as int, dy as int, sx, sy, err as int),
                walk_at(x0 as int, y0 as int, x_inc as int, y_inc as int, sx, sy, x as int, y as int),
                fuel >= (dx - sx) + (dy - sy) + 1,
                walk(
                    self.open_fn(),
                    x1 as int,
                    y1 as int,
                    dx as int,
                    dy as int,
                    x_inc as int,
                    y_inc as int,
                    x as int,
                    y as int,
                    prev_x as int,
                    prev_y as int,
                    err as int,
                    fuel,
                ) == last_open_spec(self.open_fn(), x0 as int, y0 as int, x1 as int, y1 as int),
            decreases fuel,
        {
            if !self.is_open((x, y)) {
                return (prev_x, prev_y);
            }
            if x == x1 && y == y1 {
                return (x, y);
            }
            proof {
                lemma_walk_step(dx as int, dy as int, sx, sy, err as int);
            }
            if err == 0 {
                if !self.is_open((x + x_inc, y)) && !self.is_open((x, y + y_inc)) {
                    return (x, y);
                }
                prev_x = x;
                prev_y = y;
                x = x + x_inc;
                y = y + y_inc;
                err = err - dy + dx;
                proof {
                    sx = sx + 1;
                    sy = sy + 1;
                }
            } else if err > 0 {
                prev_x = x;
                x = x + x_inc;
                err = err - dy;
                proof {
                    sx = sx + 1;
                }
            } else {
                prev_y = y;
                y = y + y_inc;
                err = err + dx;
                proof {
                    sy = sy + 1;
                }
            }
            proof {
                fuel = (fuel - 1) as nat;
            }
        }
    }
}

/// The compass direction that points from `p0` toward `p1`, by the signs of
/// the two differences; `None` when the points are the same.
pub fn direction_from_points(p0: (isize, isize), p1: (isize, isize)) -> (r: Option<Direction>)
    ensures
        r is None <==> p0 == p1,
        r matches Some(d) ==> is_compass(d.0 as int) && step_x(d.0 as int) == sign(p1.0 - p0.0)
            && step_y(d.0 as int) == sign(p1.1 - p0.1),
{
    let (x0, y0) = p0;
    let (x1, y1) = p1;
    if x1 > x0 {
        if y1 > y0 {
            Some(Direction(1))
        } else if y1 == y0 {
            Some(Direction(2))
        } else {
            Some(Direction(3))
        }
    } else if x1 == x0 {
        if y1 > y0 {
            Some(Direction(0))
        } else if y1 == y0 {
            None
        } else {
            Some(Direction(4))
        }
    } else {
        if y1 > y0 {
            Some(Direction(7))
        } else if y1 == y0 {
            Some(Direction(6))
        } else {
            Some(Direction(5))
        }
    }
}

} // verus!
