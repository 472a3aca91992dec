//! A grid of open and closed tiles packed one bit per tile in a
//! `bit_vec::BitVec`, and the walk that finds how far a straight move gets
//! before it hits a closed tile.
use crate::libs::bitvec::{abs_diff, cell_index, lemma_cell_index};
use bit_vec::BitVec as PackedBits;
use vstd::prelude::*;

verus! {

#[verifier::external_type_specification]
#[verifier::external_body]
#[verifier::reject_recursive_types(B)]
pub struct ExPackedBits<B>(PackedBits<B>);

/// The bits a `bit_vec::BitVec` holds, in order.
pub uninterp spec fn packed_bits(v: PackedBits) -> Seq<bool>;

/// `BitVec::with_capacity` of `bit_vec`: an empty bit vector (the capacity
/// only reserves room).
#[verifier::external_body]
pub(crate) fn bits_with_capacity(nbits: usize) -> (r: PackedBits)
    ensures
        packed_bits(r) == Seq::<bool>::empty(),
{
    PackedBits::with_capacity(nbits)
}

/// `BitVec::push` of `bit_vec`: appends one bit. The crate panics when the
/// length would pass `usize::MAX`, which `requires` rules out.
#[verifier::external_body]
pub(crate) fn bits_push(v: &mut PackedBits, b: bool)
    requires
        packed_bits(*old(v)).len() < usize::MAX,
    ensures
        packed_bits(*final(v)) == packed_bits(*old(v)).push(b),
{
    v.push(b)
}

/// Indexing a `bit_vec::BitVec` (its `Index` impl): the bit at `i`. The
/// crate panics out of bounds, which `requires` rules out.
#[verifier::external_body]
pub(crate) fn bits_index(v: &PackedBits, i: usize) -> (r: bool)
    requires
        i < packed_bits(*v).len(),
    ensures
        r == packed_bits(*v)[i as int],
{
    v[i]
}

/// `BitVec::set` of `bit_vec`: replaces the bit at `i`. The crate panics
/// out of bounds, which `requires` rules out.
#[verifier::external_body]
pub(crate) fn bits_set(v: &mut PackedBits, i: usize, b: bool)
    requires
        i < packed_bits(*old(v)).len(),
    ensures
        packed_bits(*final(v)) == packed_bits(*old(v)).update(i as int, b),
{
    v.set(i, b)
}

/// The direction, `1` or `-1`, in which a walk from `a` to `b` moves along
/// one axis (`-1` when they are equal).
pub open spec fn step_toward(a: int, b: int) -> int {
    if b > a {
        1
    } else {
        -1
    }
}

/// The rest of the walk toward `(x1, y1)` from the tile `(x, y)`, with
/// `(px, py)` the tile it falls back to and `err` the balance between the
/// steps taken along each axis. It stops at the first closed tile (answering
/// the fall-back tile), at the end, or where a diagonal step would squeeze
/// between two closed tiles. `fuel` bounds the number of steps.
pub open spec fn walk(
    open: spec_fn(int, int) -> bool,
    x1: int,
    y1: int,
    dx: int,
    dy: int,
    xi: int,
    yi: int,
    x: int,
    y: int,
    px: int,
    py: int,
    err: int,
    fuel: nat,
) -> (int, int)
    decreases fuel,
{
    if fuel == 0 || !open(x, y) {
        (px, py)
    } else if x == x1 && y == y1 {
        (x, y)
    } else if err == 0 {
        if !open(x + xi, y) && !open(x, y + yi) {
            (x, y)
        } else {
            walk(open, x1, y1, dx, dy, xi, yi, x + xi, y + yi, x, y, err - dy + dx, (fuel - 1) as nat)
        }
    } else if err > 0 {
        walk(open, x1, y1, dx, dy, xi, yi, x + xi, y, x, py, err - dy, (fuel - 1) as nat)
    } else {
        walk(open, x1, y1, dx, dy, xi, yi, x, y + yi, px, y, err + dx, (fuel - 1) as nat)
    }
}

/// Where a move from `(x0, y0)` toward `(x1, y1)` ends up: the whole walk,
/// which takes at most `dx + dy` steps.
pub open spec fn last_open_spec(open: spec_fn(int, int) -> bool, x0: int, y0: int, x1: int, y1: int) -> (int, int) {
    let dx = abs_diff(x0, x1);
    let dy = abs_diff(y0, y1);
    walk(
        open,
        x1,
        y1,
        dx,
        dy,
        step_toward(x0, x1),
        step_toward(y0, y1),
        x0,
        y0,
        x0,
        y0,
        dx - dy,
        (dx + dy + 1) as nat,
    )
}

/// The state of a walk after `sx` steps along x and `sy` along y: the
/// balance `err` records them, and no axis has gone past the end.
pub open spec fn walk_state(dx: int, dy: int, sx: int, sy: int, err: int) -> bool {
    &&& 0 <= sx <= dx
    &&& 0 <= sy <= dy
    &&& err == dx * (1 + sy) - dy * (1 + sx)
    &&& -dy <= err <= dx
}

/// Short of the end, the balance only ever asks for a step along an axis
/// that has room for it.
pub(crate) proof fn lemma_walk_step(dx: int, dy: int, sx: int, sy: int, err: int)
    requires
        walk_state(dx, dy, sx, sy, err),
        !(sx == dx && sy == dy),
    ensures
        err >= 0 ==> sx < dx,
        err <= 0 ==> sy < dy,
        err == 0 ==> walk_state(dx, dy, sx + 1, sy + 1, err - dy + dx),
        err > 0 ==> walk_state(dx, dy, sx + 1, sy, err - dy),
        err < 0 ==> walk_state(dx, dy, sx, sy + 1, err + dx),
{
    if sx == dx {
        assert(dx * (1 + sy) <= dx * dy) by (nonlinear_arith)
            requires
                0 <= sy < dy,
                0 <= dx,
        ;
        assert(dy * (1 + sx) == dy + dx * dy) by (nonlinear_arith)
            requires
                sx == dx,
        ;
    }
    if sy == dy {
        assert(dy * (1 + sx) <= dy * dx) by (nonlinear_arith)
            requires
                0 <= sx < dx,
                0 <= dy,
        ;
        assert(dx * (1 + sy) == dx + dx * dy) by (nonlinear_arith)
            requires
                sy == dy,
        ;
    }
    assert(dy * (1 + (sx + 1)) == dy * (1 + sx) + dy) by (nonlinear_arith);
    assert(dx * (1 + (sy + 1)) == dx * (1 + sy) + dx) by (nonlinear_arith);
}

/// Where the walk stands after `sx` and `sy` steps from `(x0, y0)`.
pub open spec fn walk_at(x0: int, y0: int, xi: int, yi: int, sx: int, sy: int, x: int, y: int) -> bool {
    &&& x == x0 + xi * sx
    &&& y == y0 + yi * sy
}

/// When every tile of the box between the start and the end is open, the
/// walk goes all the way to the end.
pub proof fn lemma_open_box_reaches_end(open: spec_fn(int, int) -> bool, x0: int, y0: int, x1: int, y1: int)
    requires
        forall|x: int, y: int|
            #![trigger open(x, y)]
            (x0 <= x <= x1 || x1 <= x <= x0) && (y0 <= y <= y1 || y1 <= y <= y0) ==> open(x, y),
    ensures
        last_open_spec(open, x0, y0, x1, y1) == (x1, y1),
{
    let dx = abs_diff(x0, x1);
    let dy = abs_diff(y0, y1);
    assert(dx * (1 + 0) - dy * (1 + 0) == dx - dy) by (nonlinear_arith);
    lemma_walk_open_box(open, x0, y0, x1, y1, 0, 0, x0, y0, dx - dy, (dx + dy + 1) as nat);
}

proof fn lemma_walk_open_box(
    open: spec_fn(int, int) -> bool,
    x0: int,
    y0: int,
    x1: int,
    y1: int,
    sx: int,
    sy: int,
    px: int,
    py: int,
    err: int,
    fuel: nat,
)
    requires
        forall|x: int, y: int|
            #![trigger open(x, y)]
            (x0 <= x <= x1 || x1 <= x <= x0) && (y0 <= y <= y1 || y1 <= y <= y0) ==> open(x, y),
        walk_state(abs_diff(x0, x1), abs_diff(y0, y1), sx, sy, err),
        fuel >= (abs_diff(x0, x1) - sx) + (abs_diff(y0, y1) - sy) + 1,
    ensures
        ({
            let xi = step_toward(x0, x1);
            let yi = step_toward(y0, y1);
            walk(
                open,
                x1,
                y1,
                abs_diff(x0, x1),
                abs_diff(y0, y1),
                xi,
                yi,
                x0 + xi * sx,
                y0 + yi * sy,
                px,
                py,
                err,
                fuel,
            ) == (x1, y1)
        }),
    decreases fuel,
{
    let dx = abs_diff(x0, x1);
    let dy = abs_diff(y0, y1);
    let xi = step_toward(x0, x1);
    let yi = step_toward(y0, y1);
    let x = x0 + xi * sx;
    let y = y0 + yi * sy;
    assert(open(x, y));
    if !(sx == dx && sy == dy) {
        lemma_walk_step(dx, dy, sx, sy, err);
        if err == 0 {
            assert(open(x + xi, y));
            lemma_walk_open_box(open, x0, y0, x1, y1, sx + 1, sy + 1, x, y, err - dy + dx, (fuel - 1) as nat);
            assert(x + xi == x0 + xi * (sx + 1));
            assert(y + yi == y0 + yi * (sy + 1));
        } else if err > 0 {
            lemma_walk_open_box(open, x0, y0, x1, y1, sx + 1, sy, x, py, err - dy, (fuel - 1) as nat);
            assert(x + xi == x0 + xi * (sx + 1));
        } else {
            lemma_walk_open_box(open, x0, y0, x1, y1, sx, sy + 1, px, y, err + dx, (fuel - 1) as nat);
            assert(y + yi == y0 + yi * (sy + 1));
        }
    }
}

/// A `w` by `h` grid of tiles, row by row; a set bit is an open tile.
pub struct ByteGrid {
    pub w: isize,
    pub h: isize,
    vec: PackedBits,
}

impl ByteGrid {
    /// The width.
    pub closed spec fn width(&self) -> int {
        self.w as int
    }

    /// The height.
    pub closed spec fn height(&self) -> int {
        self.h as int
    }

    /// The tiles, row by row.
    pub closed spec fn cells(&self) -> Seq<bool> {
        packed_bits(self.vec)
    }

    /// The grid holds one tile for each of its `w * h` positions.
    pub open spec fn wf(&self) -> bool {
        &&& 0 <= self.width() * self.height() <= isize::MAX
        &&& self.cells().len() == self.width() * self.height()
    }

    /// The open tiles, as a predicate on positions.
    pub open spec fn open_fn(&self) -> spec_fn(int, int) -> bool {
        |x: int, y: int| self.open_at(x, y)
    }

    /// Whether `(x, y)` is inside the grid and open.
    pub open spec fn open_at(&self, x: int, y: int) -> bool {
        &&& 0 <= x < self.width()
        &&& 0 <= y < self.height()
        &&& self.cells()[cell_index(self.width(), x, y)]
    }

    /// A grid of `w` columns and `h` rows, every tile open.
    pub fn new(w: isize, h: isize) -> (r: ByteGrid)
        requires
            0 <= w * h <= isize::MAX,
        ensures
            r.wf(),
            r.width() == w,
            r.height() == h,
            forall|i: int| 0 <= i < w * h ==> #[trigger] r.cells()[i],
    {
        let n: isize = w * h;
        let mut vec = bits_with_capacity(n as usize);
        let mut i: isize = 0;
        while i < n
            invariant
                0 <= i <= n,
                n == w * h,
                n <= isize::MAX,
                packed_bits(vec).len() == i,
                forall|k: int| 0 <= k < i ==> #[trigger] packed_bits(vec)[k],
            decreases n - i,
        {
            bits_push(&mut vec, true);
            i = i + 1;
        }
        ByteGrid { w, h, vec }
    }

    /// The width and the height, as `usize` (a negative one wraps, as `as`
    /// does).
    pub fn width_and_height(&self) -> (r: (usize, usize))
        ensures
            r == (self.width() as usize, self.height() as usize),
    {
        (self.w as usize, self.h as usize)
    }

    /// Whether `(x, y)` lies inside the grid and is open.
    pub fn is_open(&self, p: (isize, isize)) -> (r: bool)
        requires
            self.wf(),
        ensures
            r == self.open_at(p.0 as int, p.1 as int),
    {
        let (x, y) = p;
        if x >= 0 && y >= 0 && x < self.w && y < self.h {
            proof {
                lemma_cell_index(self.w as int, self.h as int, x as int, y as int, x as int, y as int);
            }
            bits_index(&self.vec, (y * self.w + x) as usize)
        } else {
            false
        }
    }

    /// Opens or closes the tile at `(x, y)`.
    pub fn set_point(&mut self, v: bool, p: (isize, isize))
        requires
            old(self).wf(),
            isize::MIN <= p.1 * old(self).width() <= isize::MAX,
            0 <= cell_index(old(self).width(), p.0 as int, p.1 as int) < old(self).width() * old(self).height(),
        ensures
            final(self).wf(),
            final(self).width() == old(self).width(),
            final(self).height() == old(self).height(),
            final(self).cells() == old(self).cells().update(
                cell_index(old(self).width(), p.0 as int, p.1 as int),
                v,
            ),
    {
        let (x, y) = p;
        bits_set(&mut self.vec, (y * self.w + x) as usize, v);
    }

    /// Whether the tile at `(x, y)` is open.
    pub fn get_point(&self, p: (isize, isize)) -> (r: bool)
        requires
            self.wf(),
            isize::MIN <= p.1 * self.width() <= isize::MAX,
            0 <= cell_index(self.width(), p.0 as int, p.1 as int) < self.width() * self.height(),
        ensures
            r == self.cells()[cell_index(self.width(), p.0 as int, p.1 as int)],
    {
        let (x, y) = p;
        bits_index(&self.vec, (y * self.w + x) as usize)
    }
    /// How far a move from `p0` toward `p1` gets over open tiles: the end,
    /// if the walk reaches it; the tile it falls back to on meeting a closed
    /// tile; or the tile before a diagonal step between two closed tiles.
    pub fn last_open(&self, p0: (isize, isize), p1: (isize, isize)) -> (r: (isize, isize))
        requires
            self.wf(),
            isize::MIN < p1.0 - p0.0 <= isize::MAX,
            isize::MIN < p1.1 - p0.1 <= isize::MAX,
        ensures
            (r.0 as int, r.1 as int) == last_open_spec(self.open_fn(), p0.0 as int, p0.1 as int, p1.0 as int, p1.1 as int),
    {
        let (x0, y0) = p0;
        let (x1, y1) = p1;
        let dx: isize = if x1 >= x0 { x1 - x0 } else { x0 - x1 };
        let dy: isize = if y1 >= y0 { y1 - y0 } else { y0 - y1 };
        let x_inc: isize = if x1 > x0 { 1 } else { -1 };
        let y_inc: isize = if y1 > y0 { 1 } else { -1 };

        let mut x = x0;
        let mut y = y0;
        let mut err = dx - dy;
        let mut prev_x = x;
        let mut prev_y = y;
        let ghost mut sx: int = 0;
        let ghost mut sy: int = 0;
        let ghost mut fuel: nat = (dx + dy + 1) as nat;
        assert(dx * (1 + 0) - dy * (1 + 0) == dx - dy) by (nonlinear_arith);

        loop
            invariant
                self.wf(),
                p0 == (x0, y0),
                p1 == (x1, y1),
                dx == abs_diff(x0 as int, x1 as int),
                dy == abs_diff(y0 as int, y1 as int),
                x_inc == step_toward(x0 as int, x1 as int),
                y_inc == step_toward(y0 as int, y1 as int),
                walk_state(dx as int, dy as int, sx, sy, err as int),
                walk_at(x0 as int, y0 as int, x_inc as int, y_inc as int, sx, sy, x as int, y as int),
                fuel >= (dx - sx) + (dy - sy) + 1,
                walk(self.open_fn(), x1 as int, y1 as int, dx as int, dy as int, x_inc as int, y_inc as int,
                    x as int, y as int, prev_x as int, prev_y as int, err as int, fuel)
                    == last_open_spec(self.open_fn(), x0 as int, y0 as int, x1 as int, y1 as int),
            decreases fuel,
        {
            if !self.is_open((x, y)) {
                return (prev_x, prev_y);
            }
            if x == x1 && y == y1 {
                return (x, y);
            }
            proof {
                lemma_walk_step(dx as int, dy as int, sx, sy, err as int);
            }
            if err == 0 {
                if !self.is_open((x + x_inc, y)) && !self.is_open((x, y + y_inc)) {
                    return (x, y);
                }
                prev_x = x;
                prev_y = y;
                x = x + x_inc;
                y = y + y_inc;
                err = err - dy + dx;
                proof {
                    sx = sx + 1;
                    sy = sy + 1;
                }
            } else if err > 0 {
                prev_x = x;
                x = x + x_inc;
                err = err - dy;
                proof {
                    sx = sx + 1;
                }
            } else {
                prev_y = y;
                y = y + y_inc;
                err = err + dx;
                proof {
                    sy = sy + 1;
                }
            }
            proof {
                fuel = (fuel - 1) as nat;
            }
        }
    }
}

} // verus!
