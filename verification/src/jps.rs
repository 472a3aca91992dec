//! A grid for jump point search: each open tile keeps, for each of the four
//! axis directions, how far away the next jump point lies in that
//! direction, and opening or closing an area updates those distances around
//! it. The grid also gives a search its first nodes and expands each node
//! into the tiles to try next.
use crate::libs::bitvec::{cell_index, lemma_cell_index, lemma_row_major};
use crate::pathing::direction::{
    is_compass, rotate_c, rotate_c_spec, rotate_cc, rotate_cc_spec, step_x, step_y, translate,
    Degree, Direction,
};
use vstd::prelude::*;

verus! {

/// A tile position.
#[derive(Clone, Copy, Debug, PartialEq, Eq, Hash)]
pub struct Point(pub isize, pub isize);

/// The distances to the next jump point north, east, south and west; zero
/// when there is none.
#[derive(Clone, Copy, Debug, PartialEq, Eq)]
pub struct Jumps {
    pub nj: u16,
    pub ej: u16,
    pub sj: u16,
    pub wj: u16,
}

/// The stored distance of `j` in axis direction `d` (0, 2, 4 or 6).
pub open spec fn jump_dist_of(j: Jumps, d: int) -> int {
    if d == 0 {
        j.nj as int
    } else if d == 2 {
        j.ej as int
    } else if d == 4 {
        j.sj as int
    } else {
        j.wj as int
    }
}

/// `j` with its distance in axis direction `d` replaced by `v`.
pub open spec fn with_jump_dist(j: Jumps, d: int, v: u16) -> Jumps {
    if d == 0 {
        Jumps { nj: v, ..j }
    } else if d == 2 {
        Jumps { ej: v, ..j }
    } else if d == 4 {
        Jumps { sj: v, ..j }
    } else {
        Jumps { wj: v, ..j }
    }
}

/// Whether `d` is one of the four axis directions.
pub open spec fn is_axis(d: int) -> bool {
    d == 0 || d == 2 || d == 4 || d == 6
}

/// The tile `k` tiles away from `(x, y)` in axis direction `d`.
pub open spec fn far_point(d: int, x: int, y: int, k: int) -> (int, int) {
    if d == 0 {
        (x, y + k)
    } else if d == 2 {
        (x + k, y)
    } else if d == 4 {
        (x, y - k)
    } else {
        (x - k, y)
    }
}

/// Whether `(sx, sy)` and `(gx, gy)` are the same tile, or lie on one row
/// or column with every tile strictly between them open.
pub open spec fn lines_up_spec(g: JumpGrid, sx: int, sy: int, gx: int, gy: int) -> bool {
    if sx != gx && sy != gy {
        false
    } else if sx == gx && sy == gy {
        true
    } else if sx == gx {
        forall|k: int|
            (sy < k < gy || gy < k < sy) ==> #[trigger] g.open_at(sx, k)
    } else {
        forall|k: int|
            (sx < k < gx || gx < k < sx) ==> #[trigger] g.open_at(k, sy)
    }
}

/// The tile next to `p` in direction `d`.
fn step(d: Direction, p: Point) -> (r: Point)
    requires
        is_compass(d.0 as int),
        isize::MIN < p.0 < isize::MAX,
        isize::MIN < p.1 < isize::MAX,
    ensures
        r.0 == p.0 + step_x(d.0 as int),
        r.1 == p.1 + step_y(d.0 as int),
{
    let (x, y) = translate(1, d, (p.0, p.1));
    Point(x, y)
}

/// How many steps in axis direction `d` lead from `(x, y)` out of a `w` by
/// `h` grid.
pub open spec fn steps_to_edge(d: int, x: int, y: int, w: int, h: int) -> int {
    if d == 0 {
        h - y
    } else if d == 2 {
        w - x
    } else if d == 4 {
        y + 1
    } else {
        x + 1
    }
}

/// Whether `(x, y)` lies in the rectangle with corners `p0` and `p1`.
pub open spec fn in_rect(p0: Point, p1: Point, x: int, y: int) -> bool {
    &&& (p0.0 <= x <= p1.0 || p1.0 <= x <= p0.0)
    &&& (p0.1 <= y <= p1.1 || p1.1 <= y <= p0.1)
}

/// Whether `(x, y)` lies on the line through `s` along axis direction `d`:
/// its column for north and south, its row for east and west.
pub open spec fn on_axis_line(d: int, s: Point, x: int, y: int) -> bool {
    if d == 0 || d == 4 {
        x == s.0
    } else {
        y == s.1
    }
}

/// Whether `(x, y)` shares a column or a row with the rectangle with
/// corners `p0` and `p1` or with the ring of tiles around it.
pub open spec fn in_band(p0: Point, p1: Point, x: int, y: int) -> bool {
    let min_x: int = if p0.0 < p1.0 { p0.0 as int } else { p1.0 as int };
    let max_x: int = if p0.0 < p1.0 { p1.0 as int } else { p0.0 as int };
    let min_y: int = if p0.1 < p1.1 { p0.1 as int } else { p1.1 as int };
    let max_y: int = if p0.1 < p1.1 { p1.1 as int } else { p0.1 as int };
    (min_x - 1 <= x <= max_x + 1) || (min_y - 1 <= y <= max_y + 1)
}

/// What expanding a search node finds: the node's tile it was found from,
/// the tile found, the direction the search goes on in, and whether the
/// tile was found by lining up with the goal.
pub type Found = (Point, Point, Direction, bool);

/// The tile next to `p` in direction `d`.
pub open spec fn next_point(d: int, p: Point) -> Point {
    Point((p.0 + step_x(d)) as isize, (p.1 + step_y(d)) as isize)
}

/// `seq![(p, d)]` when `b` holds, else nothing.
pub open spec fn start_if(b: bool, p: Point, d: int) -> Seq<(Point, Direction)> {
    if b {
        seq![(p, Direction(d as isize))]
    } else {
        seq![]
    }
}

/// What `a + b` holds is what `a` or `b` holds.
proof fn lemma_concat_contains<A>(a: Seq<A>, b: Seq<A>, x: A)
    ensures
        (a + b).contains(x) <==> (a.contains(x) || b.contains(x)),
{
    if (a + b).contains(x) {
        let i = choose|i: int| 0 <= i < (a + b).len() && (a + b)[i] == x;
        if i < a.len() {
            assert(a[i] == x);
        } else {
            assert(b[i - a.len()] == x);
        }
    }
    if a.contains(x) {
        let i = choose|i: int| 0 <= i < a.len() && a[i] == x;
        assert((a + b)[i] == x);
    }
    if b.contains(x) {
        let i = choose|i: int| 0 <= i < b.len() && b[i] == x;
        assert((a + b)[a.len() + i] == x);
    }
}

/// `start_if(b, p, d)` holds `x` exactly when `b` holds and `x` is
/// `(p, d)`.
proof fn lemma_start_if_contains(b: bool, p: Point, d: int, x: (Point, Direction))
    ensures
        start_if(b, p, d).contains(x) <==> (b && x == (p, Direction(d as isize))),
{
    if b && x == (p, Direction(d as isize)) {
        assert(start_if(b, p, d)[0] == x);
    }
}

/// How many diagonal steps in direction `ne` are left before column `x`
/// leaves a grid `w` wide.
pub open spec fn diag_room(ne: int, x: int, w: int) -> int {
    if step_x(ne) > 0 {
        w - x
    } else {
        x + 1
    }
}

/// How far `(x, y)` lies from `s` along axis direction `d`: the `k` with
/// `(x, y)` the `k`-th tile from `s` that way, for a tile on that line
/// (negative behind `s`).
pub open spec fn ray_index(d: int, s: Point, x: int, y: int) -> int {
    if d == 0 {
        y - s.1
    } else if d == 2 {
        x - s.0
    } else if d == 4 {
        s.1 - y
    } else {
        s.0 - x
    }
}

/// Whether the `i`-th tile from `s` in axis direction `d` is open.
pub open spec fn ray_open(g: JumpGrid, d: int, s: Point, i: int) -> bool {
    let p = far_point(d, s.0 as int, s.1 as int, i);
    g.open_at(p.0, p.1)
}

/// Whether a walk from `s` in axis direction `d` goes on past its `i`-th
/// tile: the tile is open and is no jump point looking back.
pub open spec fn ray_passes(g: JumpGrid, d: int, s: Point, i: int) -> bool {
    let p = far_point(d, s.0 as int, s.1 as int, i);
    ray_open(g, d, s, i) && !g.axis_jump_spec(rotate_c_spec(4, d), p.0, p.1)
}

/// Whether the `i`-th tile from `s` in axis direction `d` is open and keeps
/// a jump distance looking back.
pub open spec fn ray_keeps(g: JumpGrid, d: int, s: Point, i: int) -> bool {
    let p = far_point(d, s.0 as int, s.1 as int, i);
    ray_open(g, d, s, i) && jump_dist_of(g.jumps(p.0, p.1), rotate_c_spec(4, d)) > 0
}

/// Whether a walk from `s` in axis direction `d`, stepping off `s`, reaches
/// its `k`-th tile: it passes every tile before and the tile is open.
pub open spec fn set_ray_reaches(g: JumpGrid, d: int, s: Point, k: int) -> bool {
    &&& k >= 1
    &&& forall|i: int| 1 <= i < k ==> #[trigger] ray_passes(g, d, s, i)
    &&& ray_open(g, d, s, k)
}

/// Whether a walk from `s` in axis direction `d` that clears jump
/// distances goes on past its `i`-th tile: the tile keeps a distance and
/// the walk passes it.
pub open spec fn ray_clears(g: JumpGrid, d: int, s: Point, i: int) -> bool {
    ray_passes(g, d, s, i) && ray_keeps(g, d, s, i)
}

/// Whether a walk from `s` in axis direction `d` that clears jump
/// distances reaches its `k`-th tile: it goes on past every tile before,
/// and the tile is open and keeps a distance.
pub open spec fn clear_ray_reaches(g: JumpGrid, d: int, s: Point, k: int) -> bool {
    &&& k >= 1
    &&& forall|i: int| 1 <= i < k ==> #[trigger] ray_clears(g, d, s, i)
    &&& ray_keeps(g, d, s, k)
}

/// Whether a walk from `s` itself in axis direction `d` reaches its `k`-th
/// tile: it passes every tile from `s` on before it and the tile is open.
pub open spec fn cont_ray_reaches(g: JumpGrid, d: int, s: Point, k: int) -> bool {
    &&& k >= 0
    &&& forall|i: int| 0 <= i < k ==> #[trigger] ray_passes(g, d, s, i)
    &&& ray_open(g, d, s, k)
}

/// The tile at `(x, y)`, as a position.
pub open spec fn pt(x: int, y: int) -> Point {
    Point(x as isize, y as isize)
}

/// Whether `(x, y)` is a jump point for a search heading in axis direction
/// `d`, in a grid whose open tiles are `t` (as `JumpGrid::axis_jump_spec`).
pub open spec fn jump_point_in(t: spec_fn(int, int) -> bool, d: int, x: int, y: int) -> bool {
    let w = rotate_cc_spec(2, d);
    let nw = rotate_cc_spec(1, d);
    let ne = rotate_c_spec(1, d);
    let e = rotate_c_spec(2, d);
    &&& t(x, y)
    &&& t(x + step_x(d), y + step_y(d))
    &&& ((!t(x + step_x(w), y + step_y(w)) && t(x + step_x(nw), y + step_y(nw))) || (!t(
        x + step_x(e),
        y + step_y(e),
    ) && t(x + step_x(ne), y + step_y(ne))))
}

/// `ray_passes` for a grid whose open tiles are `t`.
pub open spec fn passes_in(t: spec_fn(int, int) -> bool, d: int, s: Point, i: int) -> bool {
    let p = far_point(d, s.0 as int, s.1 as int, i);
    t(p.0, p.1) && !jump_point_in(t, rotate_c_spec(4, d), p.0, p.1)
}

/// `ray_keeps` for a grid whose open tiles are `t` and whose jump
/// distances are `m`.
pub open spec fn keeps_in(t: spec_fn(int, int) -> bool, m: spec_fn(int, int) -> Jumps, d: int, s: Point, i: int) -> bool {
    let p = far_point(d, s.0 as int, s.1 as int, i);
    t(p.0, p.1) && jump_dist_of(m(p.0, p.1), rotate_c_spec(4, d)) > 0
}

/// `ray_clears` for a grid with open tiles `t` and jump distances `m`.
pub open spec fn clears_in(t: spec_fn(int, int) -> bool, m: spec_fn(int, int) -> Jumps, d: int, s: Point, i: int) -> bool {
    passes_in(t, d, s, i) && keeps_in(t, m, d, s, i)
}

/// `set_ray_reaches` for a grid whose open tiles are `t`.
pub open spec fn set_reaches_in(t: spec_fn(int, int) -> bool, d: int, s: Point, k: int) -> bool {
    let p = far_point(d, s.0 as int, s.1 as int, k);
    &&& k >= 1
    &&& forall|i: int| 1 <= i < k ==> #[trigger] passes_in(t, d, s, i)
    &&& t(p.0, p.1)
}

/// `clear_ray_reaches` for a grid with open tiles `t` and jump distances
/// `m`.
pub open spec fn clear_reaches_in(t: spec_fn(int, int) -> bool, m: spec_fn(int, int) -> Jumps, d: int, s: Point, k: int) -> bool {
    &&& k >= 1
    &&& forall|i: int| 1 <= i < k ==> #[trigger] clears_in(t, m, d, s, i)
    &&& keeps_in(t, m, d, s, k)
}

/// `cont_ray_reaches` for a grid whose open tiles are `t`.
pub open spec fn cont_reaches_in(t: spec_fn(int, int) -> bool, d: int, s: Point, k: int) -> bool {
    let p = far_point(d, s.0 as int, s.1 as int, k);
    &&& k >= 0
    &&& forall|i: int| 0 <= i < k ==> #[trigger] passes_in(t, d, s, i)
    &&& t(p.0, p.1)
}

/// The jump distances `m` after a walk from `s` in axis direction `d`
/// sets the distances back to `s` (see `JumpGrid::set_jump_ray`), in a
/// grid whose open tiles are `t`.
pub open spec fn set_ray_map(t: spec_fn(int, int) -> bool, m: spec_fn(int, int) -> Jumps, d: int, s: Point) -> spec_fn(int, int) -> Jumps {
    |x: int, y: int|
        if on_axis_line(d, s, x, y) && set_reaches_in(t, d, s, ray_index(d, s, x, y)) {
            with_jump_dist(m(x, y), rotate_c_spec(4, d), ray_index(d, s, x, y) as u16)
        } else {
            m(x, y)
        }
}

/// The jump distances `m` after a walk from `s` in axis direction `d`
/// clears them (see `JumpGrid::clear_jump_ray`).
pub open spec fn clear_ray_map(t: spec_fn(int, int) -> bool, m: spec_fn(int, int) -> Jumps, d: int, s: Point) -> spec_fn(int, int) -> Jumps {
    |x: int, y: int|
        if on_axis_line(d, s, x, y) && clear_reaches_in(t, m, d, s, ray_index(d, s, x, y)) {
            with_jump_dist(m(x, y), rotate_c_spec(4, d), 0)
        } else {
            m(x, y)
        }
}

/// The jump distances `m` after the distance `s` keeps against direction
/// `d` is carried on from `s` in direction `d` (see
/// `JumpGrid::continue_jump_ray`).
pub open spec fn cont_ray_map(t: spec_fn(int, int) -> bool, m: spec_fn(int, int) -> Jumps, d: int, s: Point) -> spec_fn(int, int) -> Jumps {
    |x: int, y: int|
        {
            let d0 = jump_dist_of(m(s.0 as int, s.1 as int), rotate_c_spec(4, d));
            if d0 > 0 && on_axis_line(d, s, x, y) && cont_reaches_in(t, d, s, ray_index(d, s, x, y)) {
                with_jump_dist(m(x, y), rotate_c_spec(4, d), (d0 + ray_index(d, s, x, y)) as u16)
            } else {
                m(x, y)
            }
        }
}

/// What one look at tile `(x, y)` does to the jump distances `m`: where
/// it has become a jump point heading in direction `d` (it was not one,
/// going by `was`), the ray behind it is set; where it has stopped being
/// one, that ray is cleared.
pub open spec fn window_op(t: spec_fn(int, int) -> bool, m: spec_fn(int, int) -> Jumps, was: bool, d: int, x: int, y: int) -> spec_fn(int, int) -> Jumps {
    let now = jump_point_in(t, d, x, y);
    if !was && now {
        set_ray_map(t, m, rotate_c_spec(4, d), pt(x, y))
    } else if was && !now {
        clear_ray_map(t, m, rotate_c_spec(4, d), pt(x, y))
    } else {
        m
    }
}

/// The lower of two coordinates.
pub open spec fn corner_lo(a: isize, b: isize) -> int {
    if a < b { a as int } else { b as int }
}

/// The higher of two coordinates.
pub open spec fn corner_hi(a: isize, b: isize) -> int {
    if a < b { b as int } else { a as int }
}

/// One before `lo`, but not below zero.
pub open spec fn from_below(lo: int) -> int {
    if 0 > lo - 1 { 0 } else { lo - 1 }
}

/// `v`, but not above `n`.
pub open spec fn cap(n: int, v: int) -> int {
    if n < v { n } else { v }
}

/// The `c`-th recorded answer, row by row over the columns from
/// `from_below(lo_x)` up to `cap(w, hi_x + 3)`, to whether the tile was a
/// jump point heading in direction `d` before the change.
pub open spec fn was_jump(g: JumpGrid, p0: Point, p1: Point, d: int, c: int) -> bool {
    let x0 = from_below(corner_lo(p0.0, p1.0));
    let y0 = from_below(corner_lo(p0.1, p1.1));
    let cols = cap(g.width(), corner_hi(p0.0, p1.0) + 3) - x0;
    g.axis_jump_spec(d, x0 + c % cols, y0 + c / cols)
}

/// The four looks at tile `(x, y)`, north, east, south and west, each
/// comparing with the recorded answer at the tile's place counted row by
/// row over the columns from `from_below(lo_x)` up to `cap(w, hi_x + 2)`.
pub open spec fn four_looks(t: spec_fn(int, int) -> bool, g: JumpGrid, p0: Point, p1: Point, m: spec_fn(int, int) -> Jumps, x: int, y: int) -> spec_fn(int, int) -> Jumps {
    let x0 = from_below(corner_lo(p0.0, p1.0));
    let y0 = from_below(corner_lo(p0.1, p1.1));
    let cols = cap(g.width(), corner_hi(p0.0, p1.0) + 2) - x0;
    let c = (y - y0) * cols + (x - x0);
    window_op(
        t,
        window_op(
            t,
            window_op(t, window_op(t, m, was_jump(g, p0, p1, 0, c), 0, x, y), was_jump(g, p0, p1, 2, c), 2, x, y),
            was_jump(g, p0, p1, 4, c),
            4,
            x,
            y,
        ),
        was_jump(g, p0, p1, 6, c),
        6,
        x,
        y,
    )
}

/// The looks at the tiles of row `y` before column `x_end`.
pub open spec fn window_row(t: spec_fn(int, int) -> bool, g: JumpGrid, p0: Point, p1: Point, m: spec_fn(int, int) -> Jumps, y: int, x_end: int) -> spec_fn(int, int) -> Jumps
    decreases x_end - from_below(corner_lo(p0.0, p1.0)),
{
    if x_end <= from_below(corner_lo(p0.0, p1.0)) {
        m
    } else {
        four_looks(t, g, p0, p1, window_row(t, g, p0, p1, m, y, x_end - 1), x_end - 1, y)
    }
}

/// The looks at the rows of the window before row `y_end`.
pub open spec fn window_rows(t: spec_fn(int, int) -> bool, g: JumpGrid, p0: Point, p1: Point, m: spec_fn(int, int) -> Jumps, y_end: int) -> spec_fn(int, int) -> Jumps
    decreases y_end - from_below(corner_lo(p0.1, p1.1)),
{
    if y_end <= from_below(corner_lo(p0.1, p1.1)) {
        m
    } else {
        window_row(
            t,
            g,
            p0,
            p1,
            window_rows(t, g, p0, p1, m, y_end - 1),
            y_end - 1,
            cap(g.width(), corner_hi(p0.0, p1.0) + 2),
        )
    }
}

/// After closing: the rays that crossed the bottom and top edges of the
/// rectangle, column by column before `x_end`, cleared.
pub open spec fn close_cols(t: spec_fn(int, int) -> bool, m: spec_fn(int, int) -> Jumps, p0: Point, p1: Point, x_end: int) -> spec_fn(int, int) -> Jumps
    decreases x_end - corner_lo(p0.0, p1.0),
{
    if x_end <= corner_lo(p0.0, p1.0) {
        m
    } else {
        let x = x_end - 1;
        let before = close_cols(t, m, p0, p1, x);
        clear_ray_map(t, clear_ray_map(t, before, 4, pt(x, corner_lo(p0.1, p1.1))), 0, pt(x, corner_hi(p0.1, p1.1)))
    }
}

/// After closing: the rays that crossed the left and right edges of the
/// rectangle, row by row before `y_end`, cleared.
pub open spec fn close_rows(t: spec_fn(int, int) -> bool, m: spec_fn(int, int) -> Jumps, p0: Point, p1: Point, y_end: int) -> spec_fn(int, int) -> Jumps
    decreases y_end - corner_lo(p0.1, p1.1),
{
    if y_end <= corner_lo(p0.1, p1.1) {
        m
    } else {
        let y = y_end - 1;
        let before = close_rows(t, m, p0, p1, y);
        clear_ray_map(t, clear_ray_map(t, before, 6, pt(corner_lo(p0.0, p1.0), y)), 2, pt(corner_hi(p0.0, p1.0), y))
    }
}

/// After opening: the distances carried on in direction `d` from column
/// `x`, row by row from `corner_lo` of the rows up to `y_end`.
pub open spec fn cont_col(t: spec_fn(int, int) -> bool, m: spec_fn(int, int) -> Jumps, p0: Point, p1: Point, d: int, x: int, y_end: int) -> spec_fn(int, int) -> Jumps
    decreases y_end - corner_lo(p0.1, p1.1),
{
    if y_end <= corner_lo(p0.1, p1.1) {
        m
    } else {
        cont_ray_map(t, cont_col(t, m, p0, p1, d, x, y_end - 1), d, pt(x, y_end - 1))
    }
}

/// After opening: the distances carried on in direction `d` from row `y`,
/// column by column from `corner_lo` of the columns up to `x_end`.
pub open spec fn cont_row(t: spec_fn(int, int) -> bool, m: spec_fn(int, int) -> Jumps, p0: Point, p1: Point, d: int, y: int, x_end: int) -> spec_fn(int, int) -> Jumps
    decreases x_end - corner_lo(p0.0, p1.0),
{
    if x_end <= corner_lo(p0.0, p1.0) {
        m
    } else {
        cont_ray_map(t, cont_row(t, m, p0, p1, d, y, x_end - 1), d, pt(x_end - 1, y))
    }
}

/// The open tiles of `g` after `v` is stored in the rectangle with corners
/// `p0` and `p1`.
pub open spec fn rect_open(g: JumpGrid, v: u8, p0: Point, p1: Point) -> spec_fn(int, int) -> bool {
    |x: int, y: int| g.in_grid(x, y) && (if in_rect(p0, p1, x, y) { v == 0 } else { g.tile(x, y) == 0 })
}

/// The jump distances of `g` after `v` is stored in the rectangle: closing
/// clears the rectangle's distances.
pub open spec fn rect_jumps(g: JumpGrid, v: u8, p0: Point, p1: Point) -> spec_fn(int, int) -> Jumps {
    |x: int, y: int| if v > 0 && in_rect(p0, p1, x, y) { no_jumps() } else { g.jumps(x, y) }
}

/// The jump distances after the looks at the whole window.
pub open spec fn after_looks(g: JumpGrid, v: u8, p0: Point, p1: Point) -> spec_fn(int, int) -> Jumps {
    window_rows(
        rect_open(g, v, p0, p1),
        g,
        p0,
        p1,
        rect_jumps(g, v, p0, p1),
        cap(g.height(), corner_hi(p0.1, p1.1) + 2),
    )
}

/// The jump distances that `JumpGrid::open_or_close_point(v, p0, p1)`
/// leaves in grid `g`: the rectangle written, every tile near it looked at
/// in turn, and then, after closing, the rays across the rectangle's edges
/// cleared, or, after opening, the distances of the tiles beside the
/// rectangle carried on into it.
pub open spec fn changed_jumps(g: JumpGrid, v: u8, p0: Point, p1: Point) -> spec_fn(int, int) -> Jumps {
    let t = rect_open(g, v, p0, p1);
    let looked = after_looks(g, v, p0, p1);
    let lo_x = corner_lo(p0.0, p1.0);
    let hi_x = corner_hi(p0.0, p1.0);
    let lo_y = corner_lo(p0.1, p1.1);
    let hi_y = corner_hi(p0.1, p1.1);
    if v > 0 {
        close_rows(t, close_cols(t, looked, p0, p1, hi_x + 1), p0, p1, hi_y + 1)
    } else {
        let a = if hi_x + 1 < g.width() { cont_col(t, looked, p0, p1, 6, hi_x + 1, hi_y + 1) } else { looked };
        let b = if lo_x - 1 >= 0 { cont_col(t, a, p0, p1, 2, lo_x - 1, hi_y + 1) } else { a };
        let c = if hi_y + 1 < g.height() { cont_row(t, b, p0, p1, 4, hi_y + 1, hi_x + 1) } else { b };
        if lo_y - 1 >= 0 { cont_row(t, c, p0, p1, 0, lo_y - 1, hi_x + 1) } else { c }
    }
}

/// Whether the `i`-th tile ahead of `(x, y)` in axis direction `d` is open
/// and no jump point heading `d`.
pub open spec fn open_no_jump(g: JumpGrid, d: int, x: int, y: int, i: int) -> bool {
    let p = far_point(d, x, y, i);
    g.open_at(p.0, p.1) && !g.axis_jump_spec(d, p.0, p.1)
}

/// Whether `k` is the distance that open tile `(x, y)` should keep heading
/// in axis direction `d`: the distance to the first jump point ahead, past
/// open tiles that are no jump points, or zero when a closed tile comes
/// first.
pub open spec fn jump_dist_ok(g: JumpGrid, d: int, x: int, y: int, k: int) -> bool {
    let p = far_point(d, x, y, k);
    if k > 0 {
        &&& forall|i: int| 1 <= i < k ==> #[trigger] open_no_jump(g, d, x, y, i)
        &&& g.open_at(p.0, p.1)
        &&& g.axis_jump_spec(d, p.0, p.1)
    } else {
        &&& k == 0
        &&& exists|n: int|
            #![trigger far_point(d, x, y, n)]
            n >= 1 && (forall|i: int| 1 <= i < n ==> #[trigger] open_no_jump(g, d, x, y, i)) && !g.open_at(
                far_point(d, x, y, n).0,
                far_point(d, x, y, n).1,
            )
    }
}

/// No jump distances.
pub open spec fn no_jumps() -> Jumps {
    Jumps { nj: 0, ej: 0, sj: 0, wj: 0 }
}

/// A position inside a `cols` wide block of `rows` rows, counted row by
/// row, comes before the end of any block at least as wide and as tall.
proof fn lemma_block_position(row: int, col: int, rows: int, cols: int, rows1: int, cols1: int)
    requires
        0 <= row < rows <= rows1,
        0 <= col < cols <= cols1,
    ensures
        0 <= row * cols + col < rows1 * cols1,
{
    assert(row * cols + col < rows1 * cols1) by (nonlinear_arith)
        requires
            0 <= row < rows <= rows1,
            0 <= col < cols <= cols1,
    ;
    assert(0 <= row * cols) by (nonlinear_arith)
        requires
            0 <= row,
            0 <= cols,
    ;
}

/// The grid with every tile open and no jump points recorded.
pub struct JumpGrid {
    w: isize,
    h: isize,
    open_vec: Vec<u8>,
    jump_vec: Vec<Jumps>,
}

impl JumpGrid {
    /// A well-formed grid has sides of at most 65535 tiles.
    pub proof fn lemma_size(&self)
        requires
            self.wf(),
        ensures
            0 <= self.width() <= 65535,
            0 <= self.height() <= 65535,
            self.width() * self.height() <= isize::MAX,
    {
    }

    /// The width.
    pub closed spec fn width(&self) -> int {
        self.w as int
    }

    /// The height.
    pub closed spec fn height(&self) -> int {
        self.h as int
    }

    /// Whether `(x, y)` lies inside the grid.
    pub open spec fn in_grid(&self, x: int, y: int) -> bool {
        0 <= x < self.width() && 0 <= y < self.height()
    }

    /// The byte of tile `(x, y)`; zero is open.
    pub closed spec fn tile(&self, x: int, y: int) -> u8 {
        self.open_vec@[cell_index(self.w as int, x, y)]
    }

    /// The jump distances of tile `(x, y)`.
    pub closed spec fn jumps(&self, x: int, y: int) -> Jumps {
        self.jump_vec@[cell_index(self.w as int, x, y)]
    }

    /// Whether `(x, y)` lies inside the grid and is open.
    pub open spec fn open_at(&self, x: int, y: int) -> bool {
        self.in_grid(x, y) && self.tile(x, y) == 0
    }

    /// Every distance a tile keeps leads to a tile inside the grid.
    pub open spec fn jumps_in_grid(&self, x: int, y: int) -> bool {
        let j = self.jumps(x, y);
        &&& y + j.nj < self.height()
        &&& x + j.ej < self.width()
        &&& y - j.sj >= 0
        &&& x - j.wj >= 0
    }

    /// The tile vectors cover the grid, the sides fit the 16-bit distances,
    /// and every kept distance stays inside the grid.
    pub closed spec fn wf(&self) -> bool {
        &&& 0 <= self.w <= 65535
        &&& 0 <= self.h <= 65535
        &&& self.w * self.h <= isize::MAX
        &&& self.open_vec@.len() == self.w * self.h
        &&& self.jump_vec@.len() == self.w * self.h
        &&& forall|x: int, y: int| #![trigger self.jumps(x, y)] self.in_grid(x, y) ==> self.jumps_in_grid(x, y)
    }

    /// Whether `(x, y)` is a jump point for a search heading in axis
    /// direction `d`: it and the tile ahead are open, and a wall beside it
    /// ends right before an open diagonal tile ahead.
    pub open spec fn axis_jump_spec(&self, d: int, x: int, y: int) -> bool {
        let w = rotate_cc_spec(2, d);
        let nw = rotate_cc_spec(1, d);
        let ne = rotate_c_spec(1, d);
        let e = rotate_c_spec(2, d);
        &&& self.open_at(x, y)
        &&& self.open_at(x + step_x(d), y + step_y(d))
        &&& ((!self.open_at(x + step_x(w), y + step_y(w)) && self.open_at(
            x + step_x(nw),
            y + step_y(nw),
        )) || (!self.open_at(x + step_x(e), y + step_y(e)) && self.open_at(
            x + step_x(ne),
            y + step_y(ne),
        )))
    }

    /// Whether `(x, y)` is a jump point for a search heading in diagonal
    /// direction `d`.
    pub open spec fn diag_jump_spec(&self, d: int, x: int, y: int) -> bool {
        let n = rotate_cc_spec(1, d);
        let s = rotate_c_spec(3, d);
        let e = rotate_c_spec(1, d);
        let w = rotate_cc_spec(3, d);
        let nw = rotate_cc_spec(2, d);
        let se = rotate_c_spec(2, d);
        let w_open = self.open_at(x + step_x(w), y + step_y(w));
        let s_open = self.open_at(x + step_x(s), y + step_y(s));
        if !w_open && s_open {
            self.open_at(x + step_x(n), y + step_y(n)) && self.open_at(x + step_x(nw), y + step_y(nw))
        } else if w_open && !s_open {
            self.open_at(x + step_x(e), y + step_y(e)) && self.open_at(x + step_x(se), y + step_y(se))
        } else {
            false
        }
    }

    /// A grid of `w` by `h` open tiles with no jump points.
    pub fn make(w: usize, h: usize) -> (g: JumpGrid)
        requires
            w <= 65535,
            h <= 65535,
            w * h <= isize::MAX,
        ensures
            g.wf(),
            g.width() == w,
            g.height() == h,
            forall|x: int, y: int| #[trigger] g.in_grid(x, y) ==> g.open_at(x, y) && g.jumps(x, y) == (Jumps { nj: 0, ej: 0, sj: 0, wj: 0 }),
            g.jumps_ok(),
    {
        let n = w * h;
        let mut open_vec: Vec<u8> = Vec::with_capacity(n);
        let mut jump_vec: Vec<Jumps> = Vec::with_capacity(n);
        let mut k: usize = 0;
        while k < n
            invariant
                k <= n,
                n == w * h,
                open_vec@.len() == k,
                jump_vec@.len() == k,
                forall|i: int| 0 <= i < k ==> #[trigger] open_vec@[i] == 0,
                forall|i: int|
                    0 <= i < k ==> #[trigger] jump_vec@[i] == (Jumps { nj: 0, ej: 0, sj: 0, wj: 0 }),
            decreases n - k,
        {
            open_vec.push(0);
            jump_vec.push(Jumps { nj: 0, ej: 0, sj: 0, wj: 0 });
            k = k + 1;
        }
        let g = JumpGrid { w: w as isize, h: h as isize, open_vec, jump_vec };
        proof {
            assert forall|x: int, y: int| #[trigger] g.in_grid(x, y) implies g.open_at(x, y) && g.jumps(
                x,
                y,
            ) == (Jumps { nj: 0, ej: 0, sj: 0, wj: 0 }) by {
                lemma_cell_index(w as int, h as int, x, y, x, y);
            }
            assert forall|x: int, y: int| #[trigger] g.open_at(x, y) == g.in_grid(x, y) by {
                if g.in_grid(x, y) {
                    lemma_cell_index(w as int, h as int, x, y, x, y);
                }
            }
            assert forall|d: int, x: int, y: int| is_axis(d) implies !#[trigger] g.axis_jump_spec(d, x, y) by {
            }
            assert forall|x: int, y: int| #[trigger] g.in_grid(x, y) implies {
                &&& jump_dist_ok(g, 0, x, y, 0)
                &&& jump_dist_ok(g, 2, x, y, 0)
                &&& jump_dist_ok(g, 4, x, y, 0)
                &&& jump_dist_ok(g, 6, x, y, 0)
            } by {
                assert(!g.open_at(far_point(0, x, y, h - y).0, far_point(0, x, y, h - y).1));
                assert forall|i: int| 1 <= i < h - y implies #[trigger] open_no_jump(g, 0, x, y, i) by {
                    assert(g.in_grid(x, y + i));
                    assert(!g.axis_jump_spec(0, x, y + i));
                }
                assert(!g.open_at(far_point(2, x, y, w - x).0, far_point(2, x, y, w - x).1));
                assert forall|i: int| 1 <= i < w - x implies #[trigger] open_no_jump(g, 2, x, y, i) by {
                    assert(g.in_grid(x + i, y));
                    assert(!g.axis_jump_spec(2, x + i, y));
                }
                assert(!g.open_at(far_point(4, x, y, y + 1).0, far_point(4, x, y, y + 1).1));
                assert forall|i: int| 1 <= i < y + 1 implies #[trigger] open_no_jump(g, 4, x, y, i) by {
                    assert(g.in_grid(x, y - i));
                    assert(!g.axis_jump_spec(4, x, y - i));
                }
                assert(!g.open_at(far_point(6, x, y, x + 1).0, far_point(6, x, y, x + 1).1));
                assert forall|i: int| 1 <= i < x + 1 implies #[trigger] open_no_jump(g, 6, x, y, i) by {
                    assert(g.in_grid(x - i, y));
                    assert(!g.axis_jump_spec(6, x - i, y));
                }
            }
        }
        g
    }

    /// Whether `p` lies inside the grid and is open.
    pub fn is_open(&self, p: Point) -> (r: bool)
        requires
            self.wf(),
        ensures
            r == self.open_at(p.0 as int, p.1 as int),
    {
        let Point(x, y) = p;
        if x >= 0 && y >= 0 && x < self.w && y < self.h {
            proof {
                lemma_cell_index(self.w as int, self.h as int, x as int, y as int, x as int, y as int);
            }
            self.open_vec[(y * self.w + x) as usize] == 0
        } else {
            false
        }
    }
    /// Whether `xy` is a jump point for a search heading in axis direction
    /// `dir`.
    pub fn is_axis_jump(&self, dir: Direction, xy: Point) -> (r: bool)
        requires
            self.wf(),
            is_axis(dir.0 as int),
            isize::MIN < xy.0 < isize::MAX,
            isize::MIN < xy.1 < isize::MAX,
        ensures
            r == self.axis_jump_spec(dir.0 as int, xy.0 as int, xy.1 as int),
    {
        let w = step(rotate_cc(Degree(2), dir), xy);
        let nw = step(rotate_cc(Degree(1), dir), xy);
        let n = step(dir, xy);
        let ne = step(rotate_c(Degree(1), dir), xy);
        let e = step(rotate_c(Degree(2), dir), xy);

        self.is_open(xy) && self.is_open(n) && (!self.is_open(w) && self.is_open(nw)
            || !self.is_open(e) && self.is_open(ne))
    }

    /// Whether `xy` is a jump point for a search heading in diagonal
    /// direction `dir`.
    pub fn is_diag_jump(&self, dir: Direction, xy: Point) -> (r: bool)
        requires
            self.wf(),
            is_compass(dir.0 as int),
            isize::MIN < xy.0 < isize::MAX,
            isize::MIN < xy.1 < isize::MAX,
        ensures
            r == self.diag_jump_spec(dir.0 as int, xy.0 as int, xy.1 as int),
    {
        let n = step(rotate_cc(Degree(1), dir), xy);
        let s = step(rotate_c(Degree(3), dir), xy);
        let e = step(rotate_c(Degree(1), dir), xy);
        let w = step(rotate_cc(Degree(3), dir), xy);
        let nw = step(rotate_cc(Degree(2), dir), xy);
        let se = step(rotate_c(Degree(2), dir), xy);

        match (self.is_open(w), self.is_open(s)) {
            (false, true) => self.is_open(n) && self.is_open(nw),
            (true, false) => self.is_open(e) && self.is_open(se),
            _ => false,
        }
    }

    /// The jump distance of tile `p` in axis direction `dir`.
    pub fn get_jump_dist(&self, dir: Direction, p: Point) -> (r: u16)
        requires
            self.wf(),
            is_axis(dir.0 as int),
            self.in_grid(p.0 as int, p.1 as int),
        ensures
            r == jump_dist_of(self.jumps(p.0 as int, p.1 as int), dir.0 as int),
    {
        let Point(x, y) = p;
        proof {
            lemma_cell_index(self.w as int, self.h as int, x as int, y as int, x as int, y as int);
        }
        let j = self.jump_vec[(y * self.w + x) as usize];
        if dir.0 == 0 {
            j.nj
        } else if dir.0 == 2 {
            j.ej
        } else if dir.0 == 4 {
            j.sj
        } else {
            j.wj
        }
    }

    /// Sets the jump distance of tile `p` in axis direction `dir` to `dist`,
    /// which must lead to a tile inside the grid.
    pub fn set_jump_dist(&mut self, dir: Direction, p: Point, dist: u16)
        requires
            old(self).wf(),
            is_axis(dir.0 as int),
            old(self).in_grid(p.0 as int, p.1 as int),
            ({
                let (fx, fy) = far_point(dir.0 as int, p.0 as int, p.1 as int, dist as int);
                old(self).in_grid(fx, fy)
            }),
        ensures
            final(self).wf(),
            final(self).width() == old(self).width(),
            final(self).height() == old(self).height(),
            forall|x: int, y: int| #[trigger] final(self).tile(x, y) == old(self).tile(x, y),
            forall|x: int, y: int|
                old(self).in_grid(x, y) ==> #[trigger] final(self).jumps(x, y) == if x == p.0 && y == p.1 {
                    with_jump_dist(old(self).jumps(x, y), dir.0 as int, dist)
                } else {
                    old(self).jumps(x, y)
                },
    {
        let Point(x, y) = p;
        proof {
            lemma_cell_index(self.w as int, self.h as int, x as int, y as int, x as int, y as int);
        }
        let ix = (y * self.w + x) as usize;
        let mut j = self.jump_vec[ix];
        if dir.0 == 0 {
            j.nj = dist;
        } else if dir.0 == 2 {
            j.ej = dist;
        } else if dir.0 == 4 {
            j.sj = dist;
        } else {
            j.wj = dist;
        }
        let ghost old_j = self.jump_vec@[ix as int];
        self.jump_vec.set(ix, j);
        proof {
            assert(j == with_jump_dist(old_j, dir.0 as int, dist));
            assert(old_j == old(self).jumps(x as int, y as int));
            assert forall|i: int, k: int| old(self).in_grid(i, k) implies #[trigger] self.jumps(i, k)
                == if i == p.0 && k == p.1 {
                with_jump_dist(old(self).jumps(i, k), dir.0 as int, dist)
            } else {
                old(self).jumps(i, k)
            } by {
                lemma_cell_index(self.w as int, self.h as int, x as int, y as int, i, k);
                lemma_cell_index(self.w as int, self.h as int, i, k, x as int, y as int);
                if i == x && k == y {
                    assert(self.jumps(i, k) == j);
                } else {
                    assert(self.jumps(i, k) == old(self).jumps(i, k));
                }
            }
        }
    }

    /// The tile `dir`'s distance away from `p`, if `p` keeps one in that
    /// axis direction.
    pub fn get_jump(&self, dir: Direction, p: Point) -> (r: Option<Point>)
        requires
            self.wf(),
            is_axis(dir.0 as int),
            self.in_grid(p.0 as int, p.1 as int),
        ensures
            ({
                let d = jump_dist_of(self.jumps(p.0 as int, p.1 as int), dir.0 as int);
                let (fx, fy) = far_point(dir.0 as int, p.0 as int, p.1 as int, d);
                &&& r is None <==> d == 0
                &&& r matches Some(q) ==> q.0 == fx && q.1 == fy && self.in_grid(fx, fy)
            }),
    {
        let Point(x, y) = p;
        let jmp_offset = self.get_jump_dist(dir, p);
        if jmp_offset > 0 {
            if dir.0 == 0 {
                Some(Point(x, y + jmp_offset as isize))
            } else if dir.0 == 2 {
                Some(Point(x + jmp_offset as isize, y))
            } else if dir.0 == 4 {
                Some(Point(x, y - jmp_offset as isize))
            } else {
                Some(Point(x - jmp_offset as isize, y))
            }
        } else {
            None
        }
    }

    /// Whether `start` and `goal` lie on one row or column with every tile
    /// strictly between them open (the same tile counts as lined up).
    pub fn lines_up(&self, start: Point, goal: Point) -> (r: bool)
        requires
            self.wf(),
        ensures
            r == lines_up_spec(*self, start.0 as int, start.1 as int, goal.0 as int, goal.1 as int),
    {
        let Point(sx, sy) = start;
        let Point(gx, gy) = goal;

        if sx != gx && sy != gy {
            return false;
        }
        if sx == gx && sy == gy {
            return true;
        }
        if gy > sy {
            let mut y = sy;
            loop
                invariant
                    self.wf(),
                    sx == gx,
                    start == Point(sx, sy),
                    goal == Point(gx, gy),
                    sy <= y < gy,
                    forall|k: int| sy < k <= y ==> #[trigger] self.open_at(sx as int, k),
                decreases gy - y,
            {
                y = y + 1;
                if y == gy {
                    return true;
                }
                if !self.is_open(Point(sx, y)) {
                    return false;
                }
            }
        } else if gy < sy {
            let mut y = sy;
            loop
                invariant
                    self.wf(),
                    sx == gx,
                    start == Point(sx, sy),
                    goal == Point(gx, gy),
                    gy < y <= sy,
                    forall|k: int| y <= k < sy ==> #[trigger] self.open_at(sx as int, k),
                decreases y - gy,
            {
                y = y - 1;
                if y == gy {
                    return true;
                }
                if !self.is_open(Point(sx, y)) {
                    return false;
                }
            }
        } else if gx > sx {
            let mut x = sx;
            loop
                invariant
                    self.wf(),
                    sy == gy,
                    start == Point(sx, sy),
                    goal == Point(gx, gy),
                    sx <= x < gx,
                    forall|k: int| sx < k <= x ==> #[trigger] self.open_at(k, sy as int),
                decreases gx - x,
            {
                x = x + 1;
                if x == gx {
                    return true;
                }
                if !self.is_open(Point(x, sy)) {
                    return false;
                }
            }
        } else {
            let mut x = sx;
            loop
                invariant
                    self.wf(),
                    sy == gy,
                    start == Point(sx, sy),
                    goal == Point(gx, gy),
                    gx < x <= sx,
                    forall|k: int| x <= k < sx ==> #[trigger] self.open_at(k, sy as int),
                decreases x - gx,
            {
                x = x - 1;
                if x == gx {
                    return true;
                }
                if !self.is_open(Point(x, sy)) {
                    return false;
                }
            }
        }
    }
    /// Jump points read off a grid agree with those read off its open tiles.
    proof fn lemma_jump_point_in(g: JumpGrid, t: spec_fn(int, int) -> bool)
        requires
            forall|x: int, y: int| #[trigger] g.open_at(x, y) == t(x, y),
        ensures
            forall|d: int, x: int, y: int| #[trigger] g.axis_jump_spec(d, x, y) == jump_point_in(t, d, x, y),
    {
    }

    /// The walks of a grid read off its open tiles `t` and its distances
    /// `m`: `ray_passes`, `ray_keeps` and the three `*_reaches` agree with
    /// their counterparts over `t` and `m`.
    proof fn lemma_walks_in(g: JumpGrid, t: spec_fn(int, int) -> bool, m: spec_fn(int, int) -> Jumps, d: int, s: Point)
        requires
            forall|x: int, y: int| #[trigger] g.open_at(x, y) == t(x, y),
            forall|x: int, y: int| g.in_grid(x, y) ==> #[trigger] g.jumps(x, y) == m(x, y),
        ensures
            forall|k: int| #[trigger] set_ray_reaches(g, d, s, k) == set_reaches_in(t, d, s, k),
            forall|k: int| #[trigger] clear_ray_reaches(g, d, s, k) == clear_reaches_in(t, m, d, s, k),
            forall|k: int| #[trigger] cont_ray_reaches(g, d, s, k) == cont_reaches_in(t, d, s, k),
    {
        Self::lemma_jump_point_in(g, t);
        assert forall|i: int| #[trigger] ray_passes(g, d, s, i) == passes_in(t, d, s, i) by {
            let p = far_point(d, s.0 as int, s.1 as int, i);
            assert(g.open_at(p.0, p.1) == t(p.0, p.1));
        }
        assert forall|i: int| #[trigger] ray_keeps(g, d, s, i) == keeps_in(t, m, d, s, i) by {
            let p = far_point(d, s.0 as int, s.1 as int, i);
            assert(g.open_at(p.0, p.1) == t(p.0, p.1));
            if t(p.0, p.1) {
                assert(g.jumps(p.0, p.1) == m(p.0, p.1));
            }
        }
        assert forall|i: int| #[trigger] ray_clears(g, d, s, i) == clears_in(t, m, d, s, i) by {
            assert(ray_passes(g, d, s, i) == passes_in(t, d, s, i));
            assert(ray_keeps(g, d, s, i) == keeps_in(t, m, d, s, i));
        }
        assert forall|i: int| #[trigger] ray_open(g, d, s, i) == t(
            far_point(d, s.0 as int, s.1 as int, i).0,
            far_point(d, s.0 as int, s.1 as int, i).1,
        ) by {
            let p = far_point(d, s.0 as int, s.1 as int, i);
            assert(g.open_at(p.0, p.1) == t(p.0, p.1));
        }
        assert forall|k: int| #[trigger] set_ray_reaches(g, d, s, k) == set_reaches_in(t, d, s, k) by {
            assert(ray_open(g, d, s, k) == t(far_point(d, s.0 as int, s.1 as int, k).0, far_point(d, s.0 as int, s.1 as int, k).1));
            if set_ray_reaches(g, d, s, k) {
                assert forall|i: int| 1 <= i < k implies #[trigger] passes_in(t, d, s, i) by {
                    assert(ray_passes(g, d, s, i));
                }
            }
            if set_reaches_in(t, d, s, k) {
                assert forall|i: int| 1 <= i < k implies #[trigger] ray_passes(g, d, s, i) by {
                    assert(passes_in(t, d, s, i));
                }
            }
        }
        assert forall|k: int| #[trigger] clear_ray_reaches(g, d, s, k) == clear_reaches_in(t, m, d, s, k) by {
            assert(ray_keeps(g, d, s, k) == keeps_in(t, m, d, s, k));
            if clear_ray_reaches(g, d, s, k) {
                assert forall|i: int| 1 <= i < k implies #[trigger] clears_in(t, m, d, s, i) by {
                    assert(ray_clears(g, d, s, i));
                }
            }
            if clear_reaches_in(t, m, d, s, k) {
                assert forall|i: int| 1 <= i < k implies #[trigger] ray_clears(g, d, s, i) by {
                    assert(clears_in(t, m, d, s, i));
                }
            }
        }
        assert forall|k: int| #[trigger] cont_ray_reaches(g, d, s, k) == cont_reaches_in(t, d, s, k) by {
            assert(ray_open(g, d, s, k) == t(far_point(d, s.0 as int, s.1 as int, k).0, far_point(d, s.0 as int, s.1 as int, k).1));
            if cont_ray_reaches(g, d, s, k) {
                assert forall|i: int| 0 <= i < k implies #[trigger] passes_in(t, d, s, i) by {
                    assert(ray_passes(g, d, s, i));
                }
            }
            if cont_reaches_in(t, d, s, k) {
                assert forall|i: int| 0 <= i < k implies #[trigger] ray_passes(g, d, s, i) by {
                    assert(passes_in(t, d, s, i));
                }
            }
        }
    }

    /// What `set_jump_ray` promises, read as a change of the distances `m`
    /// of a grid whose open tiles are `t`.
    proof fn lemma_after_set(a: JumpGrid, b: JumpGrid, t: spec_fn(int, int) -> bool, m: spec_fn(int, int) -> Jumps, d: int, s: Point)
        requires
            forall|x: int, y: int| #[trigger] a.open_at(x, y) == t(x, y),
            forall|x: int, y: int| a.in_grid(x, y) ==> #[trigger] a.jumps(x, y) == m(x, y),
            b.width() == a.width(),
            b.height() == a.height(),
            forall|x: int, y: int| #[trigger] b.tile(x, y) == a.tile(x, y),
            forall|x: int, y: int|
                #![trigger b.jumps(x, y)]
                a.in_grid(x, y) ==> b.jumps(x, y) == if on_axis_line(d, s, x, y) && set_ray_reaches(a, d, s, ray_index(d, s, x, y)) {
                    with_jump_dist(a.jumps(x, y), rotate_c_spec(4, d), ray_index(d, s, x, y) as u16)
                } else {
                    a.jumps(x, y)
                },
        ensures
            forall|x: int, y: int| #[trigger] b.open_at(x, y) == t(x, y),
            forall|x: int, y: int| b.in_grid(x, y) ==> #[trigger] b.jumps(x, y) == set_ray_map(t, m, d, s)(x, y),
    {
        Self::lemma_same_tiles(b, a);
        Self::lemma_walks_in(a, t, m, d, s);
        assert forall|x: int, y: int| b.in_grid(x, y) implies #[trigger] b.jumps(x, y) == set_ray_map(t, m, d, s)(x, y) by {
            assert(a.in_grid(x, y));
            assert(set_ray_reaches(a, d, s, ray_index(d, s, x, y)) == set_reaches_in(t, d, s, ray_index(d, s, x, y)));
        }
    }

    /// What `clear_jump_ray` promises, read as a change of the distances
    /// `m` of a grid whose open tiles are `t`.
    proof fn lemma_after_clear(a: JumpGrid, b: JumpGrid, t: spec_fn(int, int) -> bool, m: spec_fn(int, int) -> Jumps, d: int, s: Point)
        requires
            forall|x: int, y: int| #[trigger] a.open_at(x, y) == t(x, y),
            forall|x: int, y: int| a.in_grid(x, y) ==> #[trigger] a.jumps(x, y) == m(x, y),
            b.width() == a.width(),
            b.height() == a.height(),
            forall|x: int, y: int| #[trigger] b.tile(x, y) == a.tile(x, y),
            forall|x: int, y: int|
                #![trigger b.jumps(x, y)]
                a.in_grid(x, y) ==> b.jumps(x, y) == if on_axis_line(d, s, x, y) && clear_ray_reaches(a, d, s, ray_index(d, s, x, y)) {
                    with_jump_dist(a.jumps(x, y), rotate_c_spec(4, d), 0)
                } else {
                    a.jumps(x, y)
                },
        ensures
            forall|x: int, y: int| #[trigger] b.open_at(x, y) == t(x, y),
            forall|x: int, y: int| b.in_grid(x, y) ==> #[trigger] b.jumps(x, y) == clear_ray_map(t, m, d, s)(x, y),
    {
        Self::lemma_same_tiles(b, a);
        Self::lemma_walks_in(a, t, m, d, s);
        assert forall|x: int, y: int| b.in_grid(x, y) implies #[trigger] b.jumps(x, y) == clear_ray_map(t, m, d, s)(x, y) by {
            assert(a.in_grid(x, y));
            assert(clear_ray_reaches(a, d, s, ray_index(d, s, x, y)) == clear_reaches_in(t, m, d, s, ray_index(d, s, x, y)));
        }
    }

    /// What `continue_jump_ray` promises, read as a change of the distances
    /// `m` of a grid whose open tiles are `t`.
    proof fn lemma_after_cont(a: JumpGrid, b: JumpGrid, t: spec_fn(int, int) -> bool, m: spec_fn(int, int) -> Jumps, d: int, s: Point)
        requires
            a.in_grid(s.0 as int, s.1 as int),
            forall|x: int, y: int| #[trigger] a.open_at(x, y) == t(x, y),
            forall|x: int, y: int| a.in_grid(x, y) ==> #[trigger] a.jumps(x, y) == m(x, y),
            b.width() == a.width(),
            b.height() == a.height(),
            forall|x: int, y: int| #[trigger] b.tile(x, y) == a.tile(x, y),
            forall|x: int, y: int|
                #![trigger b.jumps(x, y)]
                a.in_grid(x, y) ==> b.jumps(x, y) == if jump_dist_of(a.jumps(s.0 as int, s.1 as int), rotate_c_spec(4, d)) > 0
                    && on_axis_line(d, s, x, y) && cont_ray_reaches(a, d, s, ray_index(d, s, x, y)) {
                    with_jump_dist(
                        a.jumps(x, y),
                        rotate_c_spec(4, d),
                        (jump_dist_of(a.jumps(s.0 as int, s.1 as int), rotate_c_spec(4, d)) + ray_index(d, s, x, y)) as u16,
                    )
                } else {
                    a.jumps(x, y)
                },
        ensures
            forall|x: int, y: int| #[trigger] b.open_at(x, y) == t(x, y),
            forall|x: int, y: int| b.in_grid(x, y) ==> #[trigger] b.jumps(x, y) == cont_ray_map(t, m, d, s)(x, y),
    {
        Self::lemma_same_tiles(b, a);
        Self::lemma_walks_in(a, t, m, d, s);
        assert(a.jumps(s.0 as int, s.1 as int) == m(s.0 as int, s.1 as int));
        assert forall|x: int, y: int| b.in_grid(x, y) implies #[trigger] b.jumps(x, y) == cont_ray_map(t, m, d, s)(x, y) by {
            assert(a.in_grid(x, y));
            assert(cont_ray_reaches(a, d, s, ray_index(d, s, x, y)) == cont_reaches_in(t, d, s, ray_index(d, s, x, y)));
        }
    }

    /// The jump distances agree with the tiles: every open tile keeps, in
    /// each axis direction, the distance to the first jump point ahead (zero
    /// when a closed tile comes first), and every closed tile keeps none.
    pub open spec fn jumps_ok(&self) -> bool {
        forall|x: int, y: int|
            #![trigger self.jumps(x, y)]
            self.in_grid(x, y) ==> if self.open_at(x, y) {
                let j = self.jumps(x, y);
                &&& jump_dist_ok(*self, 0, x, y, j.nj as int)
                &&& jump_dist_ok(*self, 2, x, y, j.ej as int)
                &&& jump_dist_ok(*self, 4, x, y, j.sj as int)
                &&& jump_dist_ok(*self, 6, x, y, j.wj as int)
            } else {
                self.jumps(x, y) == no_jumps()
            }
    }

    /// Grids with the same size and tiles agree on open tiles and on jump
    /// points.
    proof fn lemma_same_tiles(a: JumpGrid, b: JumpGrid)
        requires
            a.width() == b.width(),
            a.height() == b.height(),
            forall|x: int, y: int| #[trigger] a.tile(x, y) == b.tile(x, y),
        ensures
            forall|x: int, y: int| #[trigger] a.open_at(x, y) == b.open_at(x, y),
            forall|d: int, x: int, y: int| #[trigger] a.axis_jump_spec(d, x, y) == b.axis_jump_spec(d, x, y),
    {
        assert forall|x: int, y: int| #[trigger] a.open_at(x, y) == b.open_at(x, y) by {
            assert(a.tile(x, y) == b.tile(x, y));
        }
    }

    /// Walks from `start` in axis direction `dir` over open tiles, giving
    /// each the distance back to `start` as its jump distance the other way,
    /// and stops after a tile that is itself a jump point that way.
    fn set_jump_ray(&mut self, dir: Direction, start: Point)
        requires
            old(self).wf(),
            is_axis(dir.0 as int),
            old(self).in_grid(start.0 as int, start.1 as int),
        ensures
            final(self).wf(),
            final(self).width() == old(self).width(),
            final(self).height() == old(self).height(),
            forall|x: int, y: int| #[trigger] final(self).tile(x, y) == old(self).tile(x, y),
            forall|x: int, y: int|
                old(self).in_grid(x, y) && !old(self).open_at(x, y) ==> #[trigger] final(self).jumps(x, y)
                    == old(self).jumps(x, y),
            forall|x: int, y: int|
                old(self).in_grid(x, y) && !on_axis_line(dir.0 as int, start, x, y) ==> #[trigger] final(self).jumps(x, y)
                    == old(self).jumps(x, y),
            forall|x: int, y: int|
                #![trigger final(self).jumps(x, y)]
                old(self).in_grid(x, y) ==> final(self).jumps(x, y) == if on_axis_line(dir.0 as int, start, x, y)
                    && set_ray_reaches(*old(self), dir.0 as int, start, ray_index(dir.0 as int, start, x, y)) {
                    with_jump_dist(
                        old(self).jumps(x, y),
                        rotate_c_spec(4, dir.0 as int),
                        ray_index(dir.0 as int, start, x, y) as u16,
                    )
                } else {
                    old(self).jumps(x, y)
                },
    {
        let opp = rotate_c(Degree(4), dir);
        let mut xy = step(dir, start);
        let mut jump_dist: u16 = 1;
        while self.is_open(xy)
            invariant
                self.wf(),
                self.width() == old(self).width(),
                self.height() == old(self).height(),
                forall|x: int, y: int| #[trigger] self.tile(x, y) == old(self).tile(x, y),
                forall|x: int, y: int|
                    old(self).in_grid(x, y) && !old(self).open_at(x, y) ==> #[trigger] self.jumps(x, y)
                        == old(self).jumps(x, y),
                forall|x: int, y: int|
                    old(self).in_grid(x, y) && !on_axis_line(dir.0 as int, start, x, y) ==> #[trigger] self.jumps(x, y)
                        == old(self).jumps(x, y),
                is_axis(dir.0 as int),
                opp.0 == rotate_c_spec(4, dir.0 as int),
                old(self).in_grid(start.0 as int, start.1 as int),
                jump_dist >= 1,
                (xy.0 as int, xy.1 as int) == far_point(dir.0 as int, start.0 as int, start.1 as int, jump_dist as int),
                forall|i: int| 1 <= i < jump_dist ==> #[trigger] ray_passes(*old(self), dir.0 as int, start, i),
                forall|x: int, y: int|
                    #![trigger self.jumps(x, y)]
                    old(self).in_grid(x, y) ==> self.jumps(x, y) == if on_axis_line(dir.0 as int, start, x, y)
                        && set_ray_reaches(*old(self), dir.0 as int, start, ray_index(dir.0 as int, start, x, y))
                        && ray_index(dir.0 as int, start, x, y) < jump_dist {
                        with_jump_dist(
                            old(self).jumps(x, y),
                            rotate_c_spec(4, dir.0 as int),
                            ray_index(dir.0 as int, start, x, y) as u16,
                        )
                    } else {
                        old(self).jumps(x, y)
                    },
            ensures
                !ray_open(*old(self), dir.0 as int, start, jump_dist as int),
                forall|i: int| 1 <= i < jump_dist ==> #[trigger] ray_passes(*old(self), dir.0 as int, start, i),
                forall|x: int, y: int|
                    #![trigger self.jumps(x, y)]
                    old(self).in_grid(x, y) ==> self.jumps(x, y) == if on_axis_line(dir.0 as int, start, x, y)
                        && set_ray_reaches(*old(self), dir.0 as int, start, ray_index(dir.0 as int, start, x, y))
                        && ray_index(dir.0 as int, start, x, y) < jump_dist {
                        with_jump_dist(
                            old(self).jumps(x, y),
                            rotate_c_spec(4, dir.0 as int),
                            ray_index(dir.0 as int, start, x, y) as u16,
                        )
                    } else {
                        old(self).jumps(x, y)
                    },
            decreases steps_to_edge(dir.0 as int, xy.0 as int, xy.1 as int, self.width(), self.height()),
        {
            proof {
                Self::lemma_same_tiles(*self, *old(self));
            }
            let ghost k = jump_dist as int;
            let ghost before = *self;
            assert(set_ray_reaches(*old(self), dir.0 as int, start, k));
            self.set_jump_dist(opp, xy, jump_dist);
            proof {
                Self::lemma_same_tiles(*self, *old(self));
            }
            if self.is_axis_jump(opp, xy) {
                assert(!ray_passes(*old(self), dir.0 as int, start, k));
                return;
            }
            assert(ray_passes(*old(self), dir.0 as int, start, k));
            jump_dist = jump_dist + 1;
            xy = step(dir, xy);
        }
        proof {
            Self::lemma_same_tiles(*self, *old(self));
            assert(!ray_passes(*old(self), dir.0 as int, start, jump_dist as int));
        }
    }

    /// Walks from `start` in axis direction `dir` over open tiles that keep
    /// a jump distance the other way, clearing it, and stops after a tile
    /// that is itself a jump point that way.
    fn clear_jump_ray(&mut self, dir: Direction, start: Point)
        requires
            old(self).wf(),
            is_axis(dir.0 as int),
            old(self).in_grid(start.0 as int, start.1 as int),
        ensures
            final(self).wf(),
            final(self).width() == old(self).width(),
            final(self).height() == old(self).height(),
            forall|x: int, y: int| #[trigger] final(self).tile(x, y) == old(self).tile(x, y),
            forall|x: int, y: int|
                old(self).in_grid(x, y) && !old(self).open_at(x, y) ==> #[trigger] final(self).jumps(x, y)
                    == old(self).jumps(x, y),
            forall|x: int, y: int|
                old(self).in_grid(x, y) && !on_axis_line(dir.0 as int, start, x, y) ==> #[trigger] final(self).jumps(x, y)
                    == old(self).jumps(x, y),
            forall|x: int, y: int|
                #![trigger final(self).jumps(x, y)]
                old(self).in_grid(x, y) ==> final(self).jumps(x, y) == if on_axis_line(dir.0 as int, start, x, y)
                    && clear_ray_reaches(*old(self), dir.0 as int, start, ray_index(dir.0 as int, start, x, y)) {
                    with_jump_dist(old(self).jumps(x, y), rotate_c_spec(4, dir.0 as int), 0)
                } else {
                    old(self).jumps(x, y)
                },
    {
        let opp = rotate_c(Degree(4), dir);
        let mut xy = step(dir, start);
        let ghost mut k: int = 1;
        while self.is_open(xy) && self.get_jump_dist(opp, xy) > 0
            invariant
                self.wf(),
                self.width() == old(self).width(),
                self.height() == old(self).height(),
                forall|x: int, y: int| #[trigger] self.tile(x, y) == old(self).tile(x, y),
                forall|x: int, y: int|
                    old(self).in_grid(x, y) && !old(self).open_at(x, y) ==> #[trigger] self.jumps(x, y)
                        == old(self).jumps(x, y),
                forall|x: int, y: int|
                    old(self).in_grid(x, y) && !on_axis_line(dir.0 as int, start, x, y) ==> #[trigger] self.jumps(x, y)
                        == old(self).jumps(x, y),
                on_axis_line(dir.0 as int, start, xy.0 as int, xy.1 as int),
                is_axis(dir.0 as int),
                opp.0 == rotate_c_spec(4, dir.0 as int),
                -1 <= xy.0 <= self.width(),
                -1 <= xy.1 <= self.height(),
                k >= 1,
                (xy.0 as int, xy.1 as int) == far_point(dir.0 as int, start.0 as int, start.1 as int, k),
                forall|i: int| 1 <= i < k ==> #[trigger] ray_clears(*old(self), dir.0 as int, start, i),
                forall|x: int, y: int|
                    #![trigger self.jumps(x, y)]
                    old(self).in_grid(x, y) ==> self.jumps(x, y) == if on_axis_line(dir.0 as int, start, x, y)
                        && clear_ray_reaches(*old(self), dir.0 as int, start, ray_index(dir.0 as int, start, x, y))
                        && ray_index(dir.0 as int, start, x, y) < k {
                        with_jump_dist(old(self).jumps(x, y), rotate_c_spec(4, dir.0 as int), 0)
                    } else {
                        old(self).jumps(x, y)
                    },
            decreases steps_to_edge(dir.0 as int, xy.0 as int, xy.1 as int, self.width(), self.height()),
        {
            proof {
                Self::lemma_same_tiles(*self, *old(self));
                assert(self.jumps(xy.0 as int, xy.1 as int) == old(self).jumps(xy.0 as int, xy.1 as int));
                assert(clear_ray_reaches(*old(self), dir.0 as int, start, k));
            }
            self.set_jump_dist(opp, xy, 0);
            proof {
                Self::lemma_same_tiles(*self, *old(self));
            }
            if self.is_axis_jump(opp, xy) {
                assert(!ray_clears(*old(self), dir.0 as int, start, k));
                return;
            }
            assert(ray_clears(*old(self), dir.0 as int, start, k));
            xy = step(dir, xy);
            proof {
                k = k + 1;
            }
        }
        proof {
            Self::lemma_same_tiles(*self, *old(self));
            if self.in_grid(xy.0 as int, xy.1 as int) {
                assert(self.jumps(xy.0 as int, xy.1 as int) == old(self).jumps(xy.0 as int, xy.1 as int));
            }
            assert(!ray_keeps(*old(self), dir.0 as int, start, k));
            assert(!ray_clears(*old(self), dir.0 as int, start, k));
        }
    }

    /// Carries the jump distance that `start` keeps against direction `dir`
    /// on along the open tiles from `start` in direction `dir`, one more at
    /// each step, stopping after a jump point.
    fn continue_jump_ray(&mut self, dir: Direction, start: Point)
        requires
            old(self).wf(),
            is_axis(dir.0 as int),
            old(self).in_grid(start.0 as int, start.1 as int),
        ensures
            final(self).wf(),
            final(self).width() == old(self).width(),
            final(self).height() == old(self).height(),
            forall|x: int, y: int| #[trigger] final(self).tile(x, y) == old(self).tile(x, y),
            forall|x: int, y: int|
                old(self).in_grid(x, y) && !old(self).open_at(x, y) ==> #[trigger] final(self).jumps(x, y)
                    == old(self).jumps(x, y),
            forall|x: int, y: int|
                old(self).in_grid(x, y) && !on_axis_line(dir.0 as int, start, x, y) ==> #[trigger] final(self).jumps(x, y)
                    == old(self).jumps(x, y),
            forall|x: int, y: int|
                #![trigger final(self).jumps(x, y)]
                old(self).in_grid(x, y) ==> final(self).jumps(x, y) == if jump_dist_of(
                    old(self).jumps(start.0 as int, start.1 as int),
                    rotate_c_spec(4, dir.0 as int),
                ) > 0 && on_axis_line(dir.0 as int, start, x, y) && cont_ray_reaches(
                    *old(self),
                    dir.0 as int,
                    start,
                    ray_index(dir.0 as int, start, x, y),
                ) {
                    with_jump_dist(
                        old(self).jumps(x, y),
                        rotate_c_spec(4, dir.0 as int),
                        (jump_dist_of(old(self).jumps(start.0 as int, start.1 as int), rotate_c_spec(4, dir.0 as int))
                            + ray_index(dir.0 as int, start, x, y)) as u16,
                    )
                } else {
                    old(self).jumps(x, y)
                },
    {
        let opp = rotate_c(Degree(4), dir);
        let mut xy = start;
        let mut jump_dist = self.get_jump_dist(opp, start);
        let ghost d0 = jump_dist as int;
        let ghost target = far_point(opp.0 as int, start.0 as int, start.1 as int, d0);
        assert(self.jumps_in_grid(start.0 as int, start.1 as int));
        if jump_dist > 0 {
            while self.is_open(xy)
                invariant
                self.wf(),
                    self.width() == old(self).width(),
                    self.height() == old(self).height(),
                    forall|x: int, y: int| #[trigger] self.tile(x, y) == old(self).tile(x, y),
                    forall|x: int, y: int|
                        old(self).in_grid(x, y) && !old(self).open_at(x, y) ==> #[trigger] self.jumps(x, y)
                            == old(self).jumps(x, y),
                    forall|x: int, y: int|
                        old(self).in_grid(x, y) && !on_axis_line(dir.0 as int, start, x, y) ==> #[trigger] self.jumps(x, y)
                            == old(self).jumps(x, y),
                    is_axis(dir.0 as int),
                    opp.0 == rotate_c_spec(4, dir.0 as int),
                    old(self).in_grid(start.0 as int, start.1 as int),
                    jump_dist >= d0,
                    self.in_grid(target.0, target.1),
                    target == far_point(opp.0 as int, start.0 as int, start.1 as int, d0),
                    (xy.0 as int, xy.1 as int) == far_point(dir.0 as int, start.0 as int, start.1 as int, jump_dist - d0),
                    d0 > 0,
                    d0 == jump_dist_of(old(self).jumps(start.0 as int, start.1 as int), rotate_c_spec(4, dir.0 as int)),
                    forall|i: int| 0 <= i < jump_dist - d0 ==> #[trigger] ray_passes(*old(self), dir.0 as int, start, i),
                    forall|x: int, y: int|
                        #![trigger self.jumps(x, y)]
                        old(self).in_grid(x, y) ==> self.jumps(x, y) == if on_axis_line(dir.0 as int, start, x, y)
                            && cont_ray_reaches(*old(self), dir.0 as int, start, ray_index(dir.0 as int, start, x, y))
                            && ray_index(dir.0 as int, start, x, y) < jump_dist - d0 {
                            with_jump_dist(
                                old(self).jumps(x, y),
                                rotate_c_spec(4, dir.0 as int),
                                (d0 + ray_index(dir.0 as int, start, x, y)) as u16,
                            )
                        } else {
                            old(self).jumps(x, y)
                        },
                decreases steps_to_edge(dir.0 as int, xy.0 as int, xy.1 as int, self.width(), self.height()),
            {
                let ghost k = jump_dist - d0;
                proof {
                    Self::lemma_same_tiles(*self, *old(self));
                    assert(cont_ray_reaches(*old(self), dir.0 as int, start, k));
                }
                self.set_jump_dist(opp, xy, jump_dist);
                proof {
                    Self::lemma_same_tiles(*self, *old(self));
                }
                if self.is_axis_jump(opp, xy) {
                    assert(!ray_passes(*old(self), dir.0 as int, start, k));
                    return;
                }
                assert(ray_passes(*old(self), dir.0 as int, start, k));
                jump_dist = jump_dist + 1;
                xy = step(dir, xy);
            }
            proof {
                Self::lemma_same_tiles(*self, *old(self));
                assert(!ray_passes(*old(self), dir.0 as int, start, jump_dist - d0));
            }
        }
    }
    /// Looks again at tile `xy` heading in axis direction `d`: where it has
    /// become a jump point (it was not one, going by `was`), sets the ray
    /// behind it; where it has stopped being one, clears that ray.
    fn look_at(
        &mut self,
        was: bool,
        d: Direction,
        xy: Point,
        Ghost(t): Ghost<spec_fn(int, int) -> bool>,
        Ghost(m): Ghost<spec_fn(int, int) -> Jumps>,
    )
        requires
            old(self).wf(),
            is_axis(d.0 as int),
            old(self).in_grid(xy.0 as int, xy.1 as int),
            forall|x: int, y: int| #[trigger] old(self).open_at(x, y) == t(x, y),
            forall|x: int, y: int| old(self).in_grid(x, y) ==> #[trigger] old(self).jumps(x, y) == m(x, y),
        ensures
            final(self).wf(),
            final(self).width() == old(self).width(),
            final(self).height() == old(self).height(),
            forall|x: int, y: int| #[trigger] final(self).tile(x, y) == old(self).tile(x, y),
            forall|x: int, y: int|
                old(self).in_grid(x, y) && !old(self).open_at(x, y) ==> #[trigger] final(self).jumps(x, y)
                    == old(self).jumps(x, y),
            forall|x: int, y: int|
                old(self).in_grid(x, y) && !on_axis_line(rotate_c_spec(4, d.0 as int), xy, x, y)
                    ==> #[trigger] final(self).jumps(x, y) == old(self).jumps(x, y),
            forall|x: int, y: int| #[trigger] final(self).open_at(x, y) == t(x, y),
            forall|x: int, y: int|
                final(self).in_grid(x, y) ==> #[trigger] final(self).jumps(x, y) == window_op(
                    t,
                    m,
                    was,
                    d.0 as int,
                    xy.0 as int,
                    xy.1 as int,
                )(x, y),
    {
        let r = rotate_c(Degree(4), d);
        let is_jump = self.is_axis_jump(d, xy);
        let ghost a = *self;
        proof {
            Self::lemma_jump_point_in(a, t);
            assert(xy == pt(xy.0 as int, xy.1 as int));
        }
        if !was && is_jump {
            self.set_jump_ray(r, xy);
            proof {
                Self::lemma_after_set(a, *self, t, m, r.0 as int, xy);
            }
        } else if was && !is_jump {
            self.clear_jump_ray(r, xy);
            proof {
                Self::lemma_after_clear(a, *self, t, m, r.0 as int, xy);
            }
        }
    }

    /// Stores `open_or_close` in every tile of the rectangle with corners
    /// `p0` and `p1` (zero opens, anything else closes, and closing also
    /// clears the tiles' jump distances), then brings the jump distances of
    /// the tiles around it up to date: it compares which tiles near the
    /// rectangle were jump points before with what they are after, sets or
    /// clears the rays behind them, and clears or carries on the rays that
    /// crossed the rectangle's edges. Jump distances change only on the
    /// columns and rows that cross the rectangle or the ring around it.
    #[verifier::rlimit(40)]
    pub fn open_or_close_point(&mut self, open_or_close: u8, p0: Point, p1: Point)
        requires
            old(self).wf(),
            old(self).in_grid(p0.0 as int, p0.1 as int),
            old(self).in_grid(p1.0 as int, p1.1 as int),
        ensures
            final(self).wf(),
            final(self).width() == old(self).width(),
            final(self).height() == old(self).height(),
            forall|x: int, y: int|
                #![trigger final(self).tile(x, y)]
                old(self).in_grid(x, y) ==> final(self).tile(x, y) == if in_rect(p0, p1, x, y) {
                    open_or_close
                } else {
                    old(self).tile(x, y)
                },
            open_or_close > 0 ==> forall|x: int, y: int|
                old(self).in_grid(x, y) && in_rect(p0, p1, x, y) ==> #[trigger] final(self).jumps(x, y)
                    == no_jumps(),
            forall|x: int, y: int|
                old(self).in_grid(x, y) && !in_rect(p0, p1, x, y) && old(self).tile(x, y) != 0
                    ==> #[trigger] final(self).jumps(x, y) == old(self).jumps(x, y),
            forall|x: int, y: int|
                old(self).in_grid(x, y) && !in_band(p0, p1, x, y) ==> #[trigger] final(self).jumps(x, y)
                    == old(self).jumps(x, y),
            forall|x: int, y: int|
                old(self).in_grid(x, y) ==> #[trigger] final(self).jumps(x, y) == changed_jumps(
                    *old(self),
                    open_or_close,
                    p0,
                    p1,
                )(x, y),
    {
        let Point(x0, y0) = p0;
        let Point(x1, y1) = p1;
        let min_x = if x0 < x1 { x0 } else { x1 };
        let max_x = if x0 < x1 { x1 } else { x0 };
        let min_y = if y0 < y1 { y0 } else { y1 };
        let max_y = if y0 < y1 { y1 } else { y0 };
        let max_x_bound = max_x + 1;
        let min_x_bound = min_x - 1;
        let max_y_bound = max_y + 1;
        let min_y_bound = min_y - 1;

        let mut n_jumps: Vec<bool> = Vec::new();
        let mut e_jumps: Vec<bool> = Vec::new();
        let mut s_jumps: Vec<bool> = Vec::new();
        let mut w_jumps: Vec<bool> = Vec::new();

        let ys1 = if 0 > min_y - 1 { 0 } else { min_y - 1 };
        let ye1 = if self.h < max_y + 3 { self.h } else { max_y + 3 };
        let xs1 = if 0 > min_x - 1 { 0 } else { min_x - 1 };
        let xe1 = if self.w < max_x + 3 { self.w } else { max_x + 3 };
        let mut y = ys1;
        while y < ye1
            invariant
                self.wf(),
                *self == *old(self),
                0 <= ys1 <= y <= ye1 <= self.height(),
                0 <= xs1 < xe1 <= self.width(),
                n_jumps@.len() == (y - ys1) * (xe1 - xs1),
                e_jumps@.len() == n_jumps@.len(),
                s_jumps@.len() == n_jumps@.len(),
                w_jumps@.len() == n_jumps@.len(),
                forall|k: int| 0 <= k < n_jumps@.len() ==> #[trigger] n_jumps@[k] == was_jump(*old(self), p0, p1, 0, k),
                forall|k: int| 0 <= k < e_jumps@.len() ==> #[trigger] e_jumps@[k] == was_jump(*old(self), p0, p1, 2, k),
                forall|k: int| 0 <= k < s_jumps@.len() ==> #[trigger] s_jumps@[k] == was_jump(*old(self), p0, p1, 4, k),
                forall|k: int| 0 <= k < w_jumps@.len() ==> #[trigger] w_jumps@[k] == was_jump(*old(self), p0, p1, 6, k),
                xs1 == from_below(corner_lo(p0.0, p1.0)),
                ys1 == from_below(corner_lo(p0.1, p1.1)),
                xe1 == cap(old(self).width(), corner_hi(p0.0, p1.0) + 3),
            decreases ye1 - y,
        {
            let mut x = xs1;
            while x < xe1
                invariant
                    self.wf(),
                    *self == *old(self),
                    0 <= ys1 <= y < ye1 <= self.height(),
                    0 <= xs1 <= x <= xe1 <= self.width(),
                    n_jumps@.len() == (y - ys1) * (xe1 - xs1) + (x - xs1),
                    e_jumps@.len() == n_jumps@.len(),
                    s_jumps@.len() == n_jumps@.len(),
                    w_jumps@.len() == n_jumps@.len(),
                    forall|k: int| 0 <= k < n_jumps@.len() ==> #[trigger] n_jumps@[k] == was_jump(*old(self), p0, p1, 0, k),
                    forall|k: int| 0 <= k < e_jumps@.len() ==> #[trigger] e_jumps@[k] == was_jump(*old(self), p0, p1, 2, k),
                    forall|k: int| 0 <= k < s_jumps@.len() ==> #[trigger] s_jumps@[k] == was_jump(*old(self), p0, p1, 4, k),
                    forall|k: int| 0 <= k < w_jumps@.len() ==> #[trigger] w_jumps@[k] == was_jump(*old(self), p0, p1, 6, k),
                    xs1 == from_below(corner_lo(p0.0, p1.0)),
                    ys1 == from_below(corner_lo(p0.1, p1.1)),
                    xe1 == cap(old(self).width(), corner_hi(p0.0, p1.0) + 3),
                decreases xe1 - x,
            {
                let xy = Point(x, y);
                proof {
                    lemma_row_major(xe1 - xs1, ye1 - ys1, x - xs1, y - ys1);
                    let k = n_jumps@.len() as int;
                    assert(k % (xe1 - xs1) == x - xs1 && k / (xe1 - xs1) == y - ys1);
                }
                n_jumps.push(self.is_axis_jump(Direction(0), xy));
                e_jumps.push(self.is_axis_jump(Direction(2), xy));
                s_jumps.push(self.is_axis_jump(Direction(4), xy));
                w_jumps.push(self.is_axis_jump(Direction(6), xy));
                x = x + 1;
            }
            assert((y - ys1) * (xe1 - xs1) + (xe1 - xs1) == (y + 1 - ys1) * (xe1 - xs1))
                by (nonlinear_arith);
            y = y + 1;
        }

        let mut y = min_y;
        while y <= max_y
            invariant
                self.wf(),
                self.width() == old(self).width(),
                self.height() == old(self).height(),
                forall|i: int, j: int|
                    #![trigger self.tile(i, j)]
                    old(self).in_grid(i, j) ==> self.tile(i, j) == if in_rect(p0, p1, i, j) && j < y {
                        open_or_close
                    } else {
                        old(self).tile(i, j)
                    },
                open_or_close > 0 ==> forall|i: int, j: int|
                    old(self).in_grid(i, j) && in_rect(p0, p1, i, j) && j < y ==> #[trigger] self.jumps(
                        i,
                        j,
                    ) == no_jumps(),
                forall|i: int, j: int|
                    old(self).in_grid(i, j) && !(in_rect(p0, p1, i, j) && j < y) ==> #[trigger] self.jumps(
                        i,
                        j,
                    ) == old(self).jumps(i, j),
                forall|x: int, y: int|
                    old(self).in_grid(x, y) && !in_band(p0, p1, x, y) ==> #[trigger] self.jumps(x, y)
                        == old(self).jumps(x, y),
                min_x == (if p0.0 < p1.0 { p0.0 } else { p1.0 }),
                max_x == (if p0.0 < p1.0 { p1.0 } else { p0.0 }),
                min_y == (if p0.1 < p1.1 { p0.1 } else { p1.1 }),
                max_y == (if p0.1 < p1.1 { p1.1 } else { p0.1 }),
                0 <= min_x <= max_x < self.width(),
                0 <= min_y <= max_y < self.height(),
                min_y <= y <= max_y + 1,
                open_or_close == 0 ==> forall|i: int, j: int|
                    old(self).in_grid(i, j) ==> #[trigger] self.jumps(i, j) == old(self).jumps(i, j),
            decreases max_y + 1 - y,
        {
            let mut x = min_x;
            while x <= max_x
                invariant
                    self.wf(),
                    self.width() == old(self).width(),
                    self.height() == old(self).height(),
                    forall|i: int, j: int|
                        #![trigger self.tile(i, j)]
                        old(self).in_grid(i, j) ==> self.tile(i, j) == if in_rect(p0, p1, i, j) && (j < y
                            || (j == y && i < x)) {
                            open_or_close
                        } else {
                            old(self).tile(i, j)
                        },
                    open_or_close > 0 ==> forall|i: int, j: int|
                        old(self).in_grid(i, j) && in_rect(p0, p1, i, j) && (j < y || (j == y && i < x))
                            ==> #[trigger] self.jumps(i, j) == no_jumps(),
                    forall|i: int, j: int|
                        old(self).in_grid(i, j) && !(in_rect(p0, p1, i, j) && (j < y || (j == y && i
                            < x))) ==> #[trigger] self.jumps(i, j) == old(self).jumps(i, j),
                    forall|x: int, y: int|
                        old(self).in_grid(x, y) && !in_band(p0, p1, x, y) ==> #[trigger] self.jumps(x, y)
                            == old(self).jumps(x, y),
                    min_x == (if p0.0 < p1.0 { p0.0 } else { p1.0 }),
                    max_x == (if p0.0 < p1.0 { p1.0 } else { p0.0 }),
                    min_y == (if p0.1 < p1.1 { p0.1 } else { p1.1 }),
                    max_y == (if p0.1 < p1.1 { p1.1 } else { p0.1 }),
                    0 <= min_x <= max_x < self.width(),
                    0 <= min_y <= max_y < self.height(),
                    min_y <= y <= max_y,
                    min_x <= x <= max_x + 1,
                    open_or_close == 0 ==> forall|i: int, j: int|
                        old(self).in_grid(i, j) ==> #[trigger] self.jumps(i, j) == old(self).jumps(i, j),
                decreases max_x + 1 - x,
            {
                proof {
                    lemma_cell_index(self.w as int, self.h as int, x as int, y as int, x as int, y as int);
                }
                let ix = (y * self.w + x) as usize;
                let ghost before = *self;
                self.open_vec.set(ix, open_or_close);
                if open_or_close > 0 {
                    self.jump_vec.set(ix, Jumps { nj: 0, ej: 0, sj: 0, wj: 0 });
                }
                proof {
                    assert forall|i: int, j: int| before.in_grid(i, j) implies #[trigger] self.tile(i, j)
                        == (if i == x && j == y { open_or_close } else { before.tile(i, j) }) by {
                        lemma_cell_index(self.w as int, self.h as int, x as int, y as int, i, j);
                        lemma_cell_index(self.w as int, self.h as int, i, j, x as int, y as int);
                    }
                    assert forall|i: int, j: int| before.in_grid(i, j) implies #[trigger] self.jumps(i, j)
                        == (if i == x && j == y && open_or_close > 0 {
                        no_jumps()
                    } else {
                        before.jumps(i, j)
                    }) by {
                        lemma_cell_index(self.w as int, self.h as int, x as int, y as int, i, j);
                        lemma_cell_index(self.w as int, self.h as int, i, j, x as int, y as int);
                    }
                    assert forall|i: int, j: int| self.in_grid(i, j) implies #[trigger] self.jumps_in_grid(
                        i,
                        j,
                    ) by {
                        assert(before.in_grid(i, j));
                        assert(before.jumps_in_grid(i, j));
                        assert(self.jumps(i, j) == before.jumps(i, j) || self.jumps(i, j) == no_jumps());
                    }
                }
                x = x + 1;
            }
            y = y + 1;
        }

        let ys2 = if 0 > min_y_bound { 0 } else { min_y_bound };
        let ye2 = if self.h < max_y + 2 { self.h } else { max_y + 2 };
        let xs2 = if 0 > min_x_bound { 0 } else { min_x_bound };
        let xe2 = if self.w < max_x + 2 { self.w } else { max_x + 2 };
        let total = n_jumps.len();
        let mut jump_c: usize = 0;
        let ghost t = rect_open(*old(self), open_or_close, p0, p1);
        let ghost m0 = rect_jumps(*old(self), open_or_close, p0, p1);
        proof {
            assert forall|i: int, j: int| #[trigger] self.open_at(i, j) == t(i, j) by {
                if old(self).in_grid(i, j) {
                    assert(self.tile(i, j) == if in_rect(p0, p1, i, j) { open_or_close } else { old(self).tile(i, j) });
                }
            }
            assert forall|i: int, j: int| self.in_grid(i, j) implies #[trigger] self.jumps(i, j) == m0(i, j) by {
                assert(old(self).in_grid(i, j));
            }
        }
        let mut y = ys2;
        assert((y - ys2) * (xe2 - xs2) == 0);
        while y < ye2
            invariant
                    self.wf(),
                    self.width() == old(self).width(),
                    self.height() == old(self).height(),
                    forall|x: int, y: int|
                        #![trigger self.tile(x, y)]
                        old(self).in_grid(x, y) ==> self.tile(x, y) == if in_rect(p0, p1, x, y) {
                            open_or_close
                        } else {
                            old(self).tile(x, y)
                        },
                    open_or_close > 0 ==> forall|x: int, y: int|
                        old(self).in_grid(x, y) && in_rect(p0, p1, x, y) ==> #[trigger] self.jumps(x, y)
                            == no_jumps(),
                    forall|x: int, y: int|
                        old(self).in_grid(x, y) && !in_rect(p0, p1, x, y) && old(self).tile(x, y) != 0
                            ==> #[trigger] self.jumps(x, y) == old(self).jumps(x, y),
                    forall|x: int, y: int|
                        old(self).in_grid(x, y) && !in_band(p0, p1, x, y) ==> #[trigger] self.jumps(x, y)
                            == old(self).jumps(x, y),
                    min_x == (if p0.0 < p1.0 { p0.0 } else { p1.0 }),
                    max_x == (if p0.0 < p1.0 { p1.0 } else { p0.0 }),
                    min_y == (if p0.1 < p1.1 { p0.1 } else { p1.1 }),
                    max_y == (if p0.1 < p1.1 { p1.1 } else { p0.1 }),
                    0 <= min_x <= max_x < self.width(),
                    0 <= min_y <= max_y < self.height(),
                min_x - 1 <= xs2,
                xe2 <= max_x + 2,
                min_y - 1 <= ys2,
                ye2 <= max_y + 2,
                forall|k: int| 0 <= k < n_jumps@.len() ==> #[trigger] n_jumps@[k] == was_jump(*old(self), p0, p1, 0, k),
                forall|k: int| 0 <= k < e_jumps@.len() ==> #[trigger] e_jumps@[k] == was_jump(*old(self), p0, p1, 2, k),
                forall|k: int| 0 <= k < s_jumps@.len() ==> #[trigger] s_jumps@[k] == was_jump(*old(self), p0, p1, 4, k),
                forall|k: int| 0 <= k < w_jumps@.len() ==> #[trigger] w_jumps@[k] == was_jump(*old(self), p0, p1, 6, k),
                xs2 == from_below(corner_lo(p0.0, p1.0)),
                ys2 == from_below(corner_lo(p0.1, p1.1)),
                xe1 == cap(old(self).width(), corner_hi(p0.0, p1.0) + 3),
                xe2 == cap(old(self).width(), corner_hi(p0.0, p1.0) + 2),
                ye2 == cap(old(self).height(), corner_hi(p0.1, p1.1) + 2),
                t == rect_open(*old(self), open_or_close, p0, p1),
                m0 == rect_jumps(*old(self), open_or_close, p0, p1),
                forall|i: int, j: int| #[trigger] self.open_at(i, j) == t(i, j),
                forall|i: int, j: int|
                    self.in_grid(i, j) ==> #[trigger] self.jumps(i, j) == window_rows(t, *old(self), p0, p1, m0, y as int)(i, j),
                ys2 == ys1,
                xs2 == xs1,
                0 <= ys2 <= y <= ye2 <= ye1,
                0 <= xs2 < xe2 <= xe1,
                ye2 <= self.height(),
                xe2 <= self.width(),
                jump_c == (y - ys2) * (xe2 - xs2),
                n_jumps@.len() == (ye1 - ys1) * (xe1 - xs1),
                total == n_jumps@.len(),
                e_jumps@.len() == n_jumps@.len(),
                s_jumps@.len() == n_jumps@.len(),
                w_jumps@.len() == n_jumps@.len(),
            decreases ye2 - y,
        {
            let mut x = xs2;
            while x < xe2
                invariant
                    self.wf(),
                        self.width() == old(self).width(),
                        self.height() == old(self).height(),
                        forall|x: int, y: int|
                            #![trigger self.tile(x, y)]
                            old(self).in_grid(x, y) ==> self.tile(x, y) == if in_rect(p0, p1, x, y) {
                                open_or_close
                            } else {
                                old(self).tile(x, y)
                            },
                        open_or_close > 0 ==> forall|x: int, y: int|
                            old(self).in_grid(x, y) && in_rect(p0, p1, x, y) ==> #[trigger] self.jumps(x, y)
                                == no_jumps(),
                        forall|x: int, y: int|
                            old(self).in_grid(x, y) && !in_rect(p0, p1, x, y) && old(self).tile(x, y) != 0
                                ==> #[trigger] self.jumps(x, y) == old(self).jumps(x, y),
                        forall|x: int, y: int|
                            old(self).in_grid(x, y) && !in_band(p0, p1, x, y) ==> #[trigger] self.jumps(x, y)
                                == old(self).jumps(x, y),
                        min_x == (if p0.0 < p1.0 { p0.0 } else { p1.0 }),
                        max_x == (if p0.0 < p1.0 { p1.0 } else { p0.0 }),
                        min_y == (if p0.1 < p1.1 { p0.1 } else { p1.1 }),
                        max_y == (if p0.1 < p1.1 { p1.1 } else { p0.1 }),
                        0 <= min_x <= max_x < self.width(),
                        0 <= min_y <= max_y < self.height(),
                    min_x - 1 <= xs2,
                xe2 <= max_x + 2,
                min_y - 1 <= ys2,
                ye2 <= max_y + 2,
                forall|k: int| 0 <= k < n_jumps@.len() ==> #[trigger] n_jumps@[k] == was_jump(*old(self), p0, p1, 0, k),
                forall|k: int| 0 <= k < e_jumps@.len() ==> #[trigger] e_jumps@[k] == was_jump(*old(self), p0, p1, 2, k),
                forall|k: int| 0 <= k < s_jumps@.len() ==> #[trigger] s_jumps@[k] == was_jump(*old(self), p0, p1, 4, k),
                forall|k: int| 0 <= k < w_jumps@.len() ==> #[trigger] w_jumps@[k] == was_jump(*old(self), p0, p1, 6, k),
                xs2 == from_below(corner_lo(p0.0, p1.0)),
                ys2 == from_below(corner_lo(p0.1, p1.1)),
                xe1 == cap(old(self).width(), corner_hi(p0.0, p1.0) + 3),
                xe2 == cap(old(self).width(), corner_hi(p0.0, p1.0) + 2),
                ye2 == cap(old(self).height(), corner_hi(p0.1, p1.1) + 2),
                t == rect_open(*old(self), open_or_close, p0, p1),
                m0 == rect_jumps(*old(self), open_or_close, p0, p1),
                forall|i: int, j: int| #[trigger] self.open_at(i, j) == t(i, j),
                forall|i: int, j: int|
                    self.in_grid(i, j) ==> #[trigger] self.jumps(i, j) == window_row(
                        t,
                        *old(self),
                        p0,
                        p1,
                        window_rows(t, *old(self), p0, p1, m0, y as int),
                        y as int,
                        x as int,
                    )(i, j),
                ys2 == ys1,
                    xs2 == xs1,
                    0 <= ys2 <= y < ye2 <= ye1,
                    0 <= xs2 <= x <= xe2 <= xe1,
                    ye2 <= self.height(),
                    xe2 <= self.width(),
                    jump_c == (y - ys2) * (xe2 - xs2) + (x - xs2),
                    n_jumps@.len() == (ye1 - ys1) * (xe1 - xs1),
                    total == n_jumps@.len(),
                    e_jumps@.len() == n_jumps@.len(),
                    s_jumps@.len() == n_jumps@.len(),
                    w_jumps@.len() == n_jumps@.len(),
                decreases xe2 - x,
            {
                let xy = Point(x, y);
                proof {
                    lemma_block_position(y - ys2, x - xs2, ye2 - ys2, xe2 - xs2, ye1 - ys1, xe1 - xs1);
                }
                let ghost m_in = window_row(t, *old(self), p0, p1, window_rows(t, *old(self), p0, p1, m0, y as int), y as int, x as int);
                let ghost c = jump_c as int;
                let ghost m1 = window_op(t, m_in, was_jump(*old(self), p0, p1, 0, c), 0, x as int, y as int);
                let ghost m2 = window_op(t, m1, was_jump(*old(self), p0, p1, 2, c), 2, x as int, y as int);
                let ghost m3 = window_op(t, m2, was_jump(*old(self), p0, p1, 4, c), 4, x as int, y as int);
                self.look_at(n_jumps[jump_c], Direction(0), xy, Ghost(t), Ghost(m_in));
                self.look_at(e_jumps[jump_c], Direction(2), xy, Ghost(t), Ghost(m1));
                self.look_at(s_jumps[jump_c], Direction(4), xy, Ghost(t), Ghost(m2));
                self.look_at(w_jumps[jump_c], Direction(6), xy, Ghost(t), Ghost(m3));
                proof {
                    assert(window_row(t, *old(self), p0, p1, window_rows(t, *old(self), p0, p1, m0, y as int), y as int, x + 1)
                        == four_looks(t, *old(self), p0, p1, m_in, x as int, y as int));
                }
                jump_c = jump_c + 1;
                x = x + 1;
            }
            assert((y - ys2) * (xe2 - xs2) + (xe2 - xs2) == (y + 1 - ys2) * (xe2 - xs2))
                by (nonlinear_arith);
            assert(window_rows(t, *old(self), p0, p1, m0, y + 1) == window_row(
                t,
                *old(self),
                p0,
                p1,
                window_rows(t, *old(self), p0, p1, m0, y as int),
                y as int,
                xe2 as int,
            ));
            y = y + 1;
        }

        let ghost looked = after_looks(*old(self), open_or_close, p0, p1);
        assert(forall|i: int, j: int| self.in_grid(i, j) ==> #[trigger] self.jumps(i, j) == looked(i, j));
        if open_or_close > 0 {
            let mut x = min_x;
            while x < max_x_bound
                invariant
                    self.wf(),
                    self.width() == old(self).width(),
                    self.height() == old(self).height(),
                    forall|x: int, y: int|
                        #![trigger self.tile(x, y)]
                        old(self).in_grid(x, y) ==> self.tile(x, y) == if in_rect(p0, p1, x, y) {
                            open_or_close
                        } else {
                            old(self).tile(x, y)
                        },
                    open_or_close > 0 ==> forall|x: int, y: int|
                        old(self).in_grid(x, y) && in_rect(p0, p1, x, y) ==> #[trigger] self.jumps(x, y)
                            == no_jumps(),
                    forall|x: int, y: int|
                        old(self).in_grid(x, y) && !in_rect(p0, p1, x, y) && old(self).tile(x, y) != 0
                            ==> #[trigger] self.jumps(x, y) == old(self).jumps(x, y),
                    forall|x: int, y: int|
                        old(self).in_grid(x, y) && !in_band(p0, p1, x, y) ==> #[trigger] self.jumps(x, y)
                            == old(self).jumps(x, y),
                    min_x == (if p0.0 < p1.0 { p0.0 } else { p1.0 }),
                    max_x == (if p0.0 < p1.0 { p1.0 } else { p0.0 }),
                    min_y == (if p0.1 < p1.1 { p0.1 } else { p1.1 }),
                    max_y == (if p0.1 < p1.1 { p1.1 } else { p0.1 }),
                    0 <= min_x <= max_x < self.width(),
                    0 <= min_y <= max_y < self.height(),
                    max_x_bound == max_x + 1,
                    min_x <= x <= max_x_bound,
                t == rect_open(*old(self), open_or_close, p0, p1),
                looked == after_looks(*old(self), open_or_close, p0, p1),
                forall|i: int, j: int| #[trigger] self.open_at(i, j) == t(i, j),
                forall|i: int, j: int| self.in_grid(i, j) ==> #[trigger] self.jumps(i, j) == (close_cols(t, looked, p0, p1, x as int))(i, j),
                decreases max_x_bound - x,
            {
                let ghost g1 = *self;
                let ghost m_in = close_cols(t, looked, p0, p1, x as int);
                self.clear_jump_ray(Direction(4), Point(x, min_y));
                proof {
                    Self::lemma_after_clear(g1, *self, t, m_in, 4, Point(x, min_y));
                }
                let ghost g2 = *self;
                self.clear_jump_ray(Direction(0), Point(x, max_y));
                proof {
                    Self::lemma_after_clear(g2, *self, t, clear_ray_map(t, m_in, 4, Point(x, min_y)), 0, Point(x, max_y));
                    assert(close_cols(t, looked, p0, p1, x + 1) == clear_ray_map(
                        t,
                        clear_ray_map(t, m_in, 4, Point(x, min_y)),
                        0,
                        Point(x, max_y),
                    ));
                }
                x = x + 1;
            }
            let mut y = min_y;
            while y < max_y_bound
                invariant
                    self.wf(),
                    self.width() == old(self).width(),
                    self.height() == old(self).height(),
                    forall|x: int, y: int|
                        #![trigger self.tile(x, y)]
                        old(self).in_grid(x, y) ==> self.tile(x, y) == if in_rect(p0, p1, x, y) {
                            open_or_close
                        } else {
                            old(self).tile(x, y)
                        },
                    open_or_close > 0 ==> forall|x: int, y: int|
                        old(self).in_grid(x, y) && in_rect(p0, p1, x, y) ==> #[trigger] self.jumps(x, y)
                            == no_jumps(),
                    forall|x: int, y: int|
                        old(self).in_grid(x, y) && !in_rect(p0, p1, x, y) && old(self).tile(x, y) != 0
                            ==> #[trigger] self.jumps(x, y) == old(self).jumps(x, y),
                    forall|x: int, y: int|
                        old(self).in_grid(x, y) && !in_band(p0, p1, x, y) ==> #[trigger] self.jumps(x, y)
                            == old(self).jumps(x, y),
                    min_x == (if p0.0 < p1.0 { p0.0 } else { p1.0 }),
                    max_x == (if p0.0 < p1.0 { p1.0 } else { p0.0 }),
                    min_y == (if p0.1 < p1.1 { p0.1 } else { p1.1 }),
                    max_y == (if p0.1 < p1.1 { p1.1 } else { p0.1 }),
                    0 <= min_x <= max_x < self.width(),
                    0 <= min_y <= max_y < self.height(),
                    max_y_bound == max_y + 1,
                    min_y <= y <= max_y_bound,
                t == rect_open(*old(self), open_or_close, p0, p1),
                looked == after_looks(*old(self), open_or_close, p0, p1),
                forall|i: int, j: int| #[trigger] self.open_at(i, j) == t(i, j),
                forall|i: int, j: int| self.in_grid(i, j) ==> #[trigger] self.jumps(i, j) == (close_rows(t, close_cols(t, looked, p0, p1, max_x + 1), p0, p1, y as int))(i, j),
                decreases max_y_bound - y,
            {
                let ghost g1 = *self;
                let ghost m_in = close_rows(t, close_cols(t, looked, p0, p1, max_x + 1), p0, p1, y as int);
                self.clear_jump_ray(Direction(6), Point(min_x, y));
                proof {
                    Self::lemma_after_clear(g1, *self, t, m_in, 6, Point(min_x, y));
                }
                let ghost g2 = *self;
                self.clear_jump_ray(Direction(2), Point(max_x, y));
                proof {
                    Self::lemma_after_clear(g2, *self, t, clear_ray_map(t, m_in, 6, Point(min_x, y)), 2, Point(max_x, y));
                    assert(close_rows(t, close_cols(t, looked, p0, p1, max_x + 1), p0, p1, y + 1) == clear_ray_map(
                        t,
                        clear_ray_map(t, m_in, 6, Point(min_x, y)),
                        2,
                        Point(max_x, y),
                    ));
                }
                y = y + 1;
            }
        } else {
            if max_x_bound < self.w {
                let mut y = min_y;
                while y < max_y_bound
                    invariant
                    self.wf(),
                        self.width() == old(self).width(),
                        self.height() == old(self).height(),
                        forall|x: int, y: int|
                            #![trigger self.tile(x, y)]
                            old(self).in_grid(x, y) ==> self.tile(x, y) == if in_rect(p0, p1, x, y) {
                                open_or_close
                            } else {
                                old(self).tile(x, y)
                            },
                        open_or_close > 0 ==> forall|x: int, y: int|
                            old(self).in_grid(x, y) && in_rect(p0, p1, x, y) ==> #[trigger] self.jumps(x, y)
                                == no_jumps(),
                        forall|x: int, y: int|
                            old(self).in_grid(x, y) && !in_rect(p0, p1, x, y) && old(self).tile(x, y) != 0
                                ==> #[trigger] self.jumps(x, y) == old(self).jumps(x, y),
                        forall|x: int, y: int|
                            old(self).in_grid(x, y) && !in_band(p0, p1, x, y) ==> #[trigger] self.jumps(x, y)
                                == old(self).jumps(x, y),
                        min_x == (if p0.0 < p1.0 { p0.0 } else { p1.0 }),
                        max_x == (if p0.0 < p1.0 { p1.0 } else { p0.0 }),
                        min_y == (if p0.1 < p1.1 { p0.1 } else { p1.1 }),
                        max_y == (if p0.1 < p1.1 { p1.1 } else { p0.1 }),
                        0 <= min_x <= max_x < self.width(),
                        0 <= min_y <= max_y < self.height(),
                        max_y_bound == max_y + 1,
                        max_x_bound == max_x + 1,
                        max_x_bound < self.width(),
                        min_y <= y <= max_y_bound,
                    t == rect_open(*old(self), open_or_close, p0, p1),
                    looked == after_looks(*old(self), open_or_close, p0, p1),
                    forall|i: int, j: int| #[trigger] self.open_at(i, j) == t(i, j),
                    forall|i: int, j: int| self.in_grid(i, j) ==> #[trigger] self.jumps(i, j) == (cont_col(t, looked, p0, p1, 6, max_x + 1, y as int))(i, j),
                    decreases max_y_bound - y,
                {
                    let ghost g1 = *self;
                    let ghost m_in = cont_col(t, looked, p0, p1, 6, max_x + 1, y as int);
                    self.continue_jump_ray(Direction(6), Point(max_x_bound, y));
                    proof {
                        Self::lemma_after_cont(g1, *self, t, m_in, 6, Point(max_x_bound, y));
                        assert(cont_col(t, looked, p0, p1, 6, max_x + 1, y + 1) == cont_ray_map(t, m_in, 6, Point(max_x_bound, y)));
                    }
                    y = y + 1;
                }
            }
            let ghost ma = if max_x + 1 < old(self).width() { cont_col(t, looked, p0, p1, 6, max_x + 1, max_y + 1) } else { looked };
            assert(forall|i: int, j: int| self.in_grid(i, j) ==> #[trigger] self.jumps(i, j) == ma(i, j));
            if min_x_bound >= 0 {
                let mut y = min_y;
                while y < max_y_bound
                    invariant
                    self.wf(),
                        self.width() == old(self).width(),
                        self.height() == old(self).height(),
                        forall|x: int, y: int|
                            #![trigger self.tile(x, y)]
                            old(self).in_grid(x, y) ==> self.tile(x, y) == if in_rect(p0, p1, x, y) {
                                open_or_close
                            } else {
                                old(self).tile(x, y)
                            },
                        open_or_close > 0 ==> forall|x: int, y: int|
                            old(self).in_grid(x, y) && in_rect(p0, p1, x, y) ==> #[trigger] self.jumps(x, y)
                                == no_jumps(),
                        forall|x: int, y: int|
                            old(self).in_grid(x, y) && !in_rect(p0, p1, x, y) && old(self).tile(x, y) != 0
                                ==> #[trigger] self.jumps(x, y) == old(self).jumps(x, y),
                        forall|x: int, y: int|
                            old(self).in_grid(x, y) && !in_band(p0, p1, x, y) ==> #[trigger] self.jumps(x, y)
                                == old(self).jumps(x, y),
                        min_x == (if p0.0 < p1.0 { p0.0 } else { p1.0 }),
                        max_x == (if p0.0 < p1.0 { p1.0 } else { p0.0 }),
                        min_y == (if p0.1 < p1.1 { p0.1 } else { p1.1 }),
                        max_y == (if p0.1 < p1.1 { p1.1 } else { p0.1 }),
                        0 <= min_x <= max_x < self.width(),
                        0 <= min_y <= max_y < self.height(),
                        max_y_bound == max_y + 1,
                        min_x_bound == min_x - 1,
                        min_x_bound >= 0,
                        min_y <= y <= max_y_bound,
                    t == rect_open(*old(self), open_or_close, p0, p1),
                    looked == after_looks(*old(self), open_or_close, p0, p1),
                    forall|i: int, j: int| #[trigger] self.open_at(i, j) == t(i, j),
                    forall|i: int, j: int| self.in_grid(i, j) ==> #[trigger] self.jumps(i, j) == (cont_col(t, ma, p0, p1, 2, min_x - 1, y as int))(i, j),
                    decreases max_y_bound - y,
                {
                    let ghost g1 = *self;
                    let ghost m_in = cont_col(t, ma, p0, p1, 2, min_x - 1, y as int);
                    self.continue_jump_ray(Direction(2), Point(min_x_bound, y));
                    proof {
                        Self::lemma_after_cont(g1, *self, t, m_in, 2, Point(min_x_bound, y));
                        assert(cont_col(t, ma, p0, p1, 2, min_x - 1, y + 1) == cont_ray_map(t, m_in, 2, Point(min_x_bound, y)));
                    }
                    y = y + 1;
                }
            }
            let ghost mb = if min_x - 1 >= 0 { cont_col(t, ma, p0, p1, 2, min_x - 1, max_y + 1) } else { ma };
            assert(forall|i: int, j: int| self.in_grid(i, j) ==> #[trigger] self.jumps(i, j) == mb(i, j));
            if max_y_bound < self.h {
                let mut x = min_x;
                while x < max_x_bound
                    invariant
                    self.wf(),
                        self.width() == old(self).width(),
                        self.height() == old(self).height(),
                        forall|x: int, y: int|
                            #![trigger self.tile(x, y)]
                            old(self).in_grid(x, y) ==> self.tile(x, y) == if in_rect(p0, p1, x, y) {
                                open_or_close
                            } else {
                                old(self).tile(x, y)
                            },
                        open_or_close > 0 ==> forall|x: int, y: int|
                            old(self).in_grid(x, y) && in_rect(p0, p1, x, y) ==> #[trigger] self.jumps(x, y)
                                == no_jumps(),
                        forall|x: int, y: int|
                            old(self).in_grid(x, y) && !in_rect(p0, p1, x, y) && old(self).tile(x, y) != 0
                                ==> #[trigger] self.jumps(x, y) == old(self).jumps(x, y),
                        forall|x: int, y: int|
                            old(self).in_grid(x, y) && !in_band(p0, p1, x, y) ==> #[trigger] self.jumps(x, y)
                                == old(self).jumps(x, y),
                        min_x == (if p0.0 < p1.0 { p0.0 } else { p1.0 }),
                        max_x == (if p0.0 < p1.0 { p1.0 } else { p0.0 }),
                        min_y == (if p0.1 < p1.1 { p0.1 } else { p1.1 }),
                        max_y == (if p0.1 < p1.1 { p1.1 } else { p0.1 }),
                        0 <= min_x <= max_x < self.width(),
                        0 <= min_y <= max_y < self.height(),
                        max_x_bound == max_x + 1,
                        max_y_bound == max_y + 1,
                        max_y_bound < self.height(),
                        min_x <= x <= max_x_bound,
                    t == rect_open(*old(self), open_or_close, p0, p1),
                    looked == after_looks(*old(self), open_or_close, p0, p1),
                    forall|i: int, j: int| #[trigger] self.open_at(i, j) == t(i, j),
                    forall|i: int, j: int| self.in_grid(i, j) ==> #[trigger] self.jumps(i, j) == (cont_row(t, mb, p0, p1, 4, max_y + 1, x as int))(i, j),
                    decreases max_x_bound - x,
                {
                    let ghost g1 = *self;
                    let ghost m_in = cont_row(t, mb, p0, p1, 4, max_y + 1, x as int);
                    self.continue_jump_ray(Direction(4), Point(x, max_y_bound));
                    proof {
                        Self::lemma_after_cont(g1, *self, t, m_in, 4, Point(x, max_y_bound));
                        assert(cont_row(t, mb, p0, p1, 4, max_y + 1, x + 1) == cont_ray_map(t, m_in, 4, Point(x, max_y_bound)));
                    }
                    x = x + 1;
                }
            }
            let ghost mc = if max_y + 1 < old(self).height() { cont_row(t, mb, p0, p1, 4, max_y + 1, max_x + 1) } else { mb };
            assert(forall|i: int, j: int| self.in_grid(i, j) ==> #[trigger] self.jumps(i, j) == mc(i, j));
            if min_y_bound >= 0 {
                let mut x = min_x;
                while x < max_x_bound
                    invariant
                    self.wf(),
                        self.width() == old(self).width(),
                        self.height() == old(self).height(),
                        forall|x: int, y: int|
                            #![trigger self.tile(x, y)]
                            old(self).in_grid(x, y) ==> self.tile(x, y) == if in_rect(p0, p1, x, y) {
                                open_or_close
                            } else {
                                old(self).tile(x, y)
                            },
                        open_or_close > 0 ==> forall|x: int, y: int|
                            old(self).in_grid(x, y) && in_rect(p0, p1, x, y) ==> #[trigger] self.jumps(x, y)
                                == no_jumps(),
                        forall|x: int, y: int|
                            old(self).in_grid(x, y) && !in_rect(p0, p1, x, y) && old(self).tile(x, y) != 0
                                ==> #[trigger] self.jumps(x, y) == old(self).jumps(x, y),
                        forall|x: int, y: int|
                            old(self).in_grid(x, y) && !in_band(p0, p1, x, y) ==> #[trigger] self.jumps(x, y)
                                == old(self).jumps(x, y),
                        min_x == (if p0.0 < p1.0 { p0.0 } else { p1.0 }),
                        max_x == (if p0.0 < p1.0 { p1.0 } else { p0.0 }),
                        min_y == (if p0.1 < p1.1 { p0.1 } else { p1.1 }),
                        max_y == (if p0.1 < p1.1 { p1.1 } else { p0.1 }),
                        0 <= min_x <= max_x < self.width(),
                        0 <= min_y <= max_y < self.height(),
                        max_x_bound == max_x + 1,
                        min_y_bound == min_y - 1,
                        min_y_bound >= 0,
                        min_x <= x <= max_x_bound,
                    t == rect_open(*old(self), open_or_close, p0, p1),
                    looked == after_looks(*old(self), open_or_close, p0, p1),
                    forall|i: int, j: int| #[trigger] self.open_at(i, j) == t(i, j),
                    forall|i: int, j: int| self.in_grid(i, j) ==> #[trigger] self.jumps(i, j) == (cont_row(t, mc, p0, p1, 0, min_y - 1, x as int))(i, j),
                    decreases max_x_bound - x,
                {
                    let ghost g1 = *self;
                    let ghost m_in = cont_row(t, mc, p0, p1, 0, min_y - 1, x as int);
                    self.continue_jump_ray(Direction(0), Point(x, min_y_bound));
                    proof {
                        Self::lemma_after_cont(g1, *self, t, m_in, 0, Point(x, min_y_bound));
                        assert(cont_row(t, mc, p0, p1, 0, min_y - 1, x + 1) == cont_ray_map(t, m_in, 0, Point(x, min_y_bound)));
                    }
                    x = x + 1;
                }
            }
        }
    }
}

impl JumpGrid {
    /// Whether the tile next to `p` in direction `d` is open.
    pub open spec fn open_toward(&self, p: Point, d: int) -> bool {
        self.open_at(p.0 + step_x(d), p.1 + step_y(d))
    }

    /// The jump point that `p` keeps in axis direction `d`, if any, as
    /// found from `p`.
    pub open spec fn jump_found(&self, p: Point, d: int) -> Seq<Found> {
        let k = jump_dist_of(self.jumps(p.0 as int, p.1 as int), d);
        let f = far_point(d, p.0 as int, p.1 as int, k);
        if k > 0 {
            seq![(p, Point(f.0 as isize, f.1 as isize), Direction(d as isize), false)]
        } else {
            seq![]
        }
    }

    /// The first nodes of a search from `xy`, with their directions: each
    /// open tile north, south, east and west, then each open diagonal tile
    /// north-east, north-west, south-east and south-west with one of the
    /// two tiles beside it open.
    pub open spec fn init_open_spec(&self, xy: Point) -> Seq<(Point, Direction)> {
        let n = self.open_toward(xy, 0);
        let s = self.open_toward(xy, 4);
        let e = self.open_toward(xy, 2);
        let w = self.open_toward(xy, 6);
        start_if(n, next_point(0, xy), 0) + start_if(s, next_point(4, xy), 4) + start_if(e, next_point(2, xy), 2)
            + start_if(w, next_point(6, xy), 6) + start_if((n || e) && self.open_toward(xy, 1), next_point(1, xy), 1)
            + start_if((n || w) && self.open_toward(xy, 7), next_point(7, xy), 7) + start_if(
            (s || e) && self.open_toward(xy, 3),
            next_point(3, xy),
            3,
        ) + start_if((s || w) && self.open_toward(xy, 5), next_point(5, xy), 5)
    }

    /// What expanding a node at `xy` heading in axis direction `n` finds:
    /// with the tile ahead open, the jump point ahead, and each diagonal
    /// ahead that is open where the side tile next to it is closed.
    pub open spec fn expand_axis_spec(&self, xy: Point, n: int) -> Seq<Found> {
        let e = rotate_c_spec(2, n);
        let w = rotate_cc_spec(2, n);
        let nw = rotate_cc_spec(1, n);
        let ne = rotate_c_spec(1, n);
        if self.open_toward(xy, n) {
            self.jump_found(xy, n) + (if self.open_toward(xy, nw) && !self.open_toward(xy, w) {
                seq![(xy, next_point(nw, xy), Direction(nw as isize), false)]
            } else {
                seq![]
            }) + (if self.open_toward(xy, ne) && !self.open_toward(xy, e) {
                seq![(xy, next_point(ne, xy), Direction(ne as isize), false)]
            } else {
                seq![]
            })
        } else {
            seq![]
        }
    }

    /// What a walk from `(x, y)` in diagonal direction `ne` finds: the tile
    /// itself when it lines up with the goal; else a turn around a wall on
    /// either side, then, where the tile keeps a jump point along either
    /// side, those jump points and the next diagonal tile, and the walk
    /// ends; where the way on is blocked it ends too, and otherwise it goes
    /// on to the next diagonal tile.
    pub open spec fn diag_walk_found(&self, x: int, y: int, goal: Point, ne: int) -> Seq<Found>
        decreases diag_room(ne, x, self.width()),
    {
        let p = Point(x as isize, y as isize);
        let n = rotate_cc_spec(1, ne);
        let e = rotate_c_spec(1, ne);
        let w = rotate_cc_spec(3, ne);
        let s = rotate_c_spec(3, ne);
        let nw = rotate_cc_spec(2, ne);
        let se = rotate_c_spec(2, ne);
        let open_n = self.open_at(x + step_x(n), y + step_y(n));
        let open_e = self.open_at(x + step_x(e), y + step_y(e));
        let open_ne = self.open_at(x + step_x(ne), y + step_y(ne));
        if lines_up_spec(*self, x, y, goal.0 as int, goal.1 as int) {
            seq![(p, p, Direction(ne as isize), true)]
        } else {
            let turn = if !self.open_at(x + step_x(w), y + step_y(w)) && open_n && self.open_at(
                x + step_x(nw),
                y + step_y(nw),
            ) {
                seq![(p, next_point(nw, p), Direction(nw as isize), false)]
            } else if !self.open_at(x + step_x(s), y + step_y(s)) && open_e && self.open_at(
                x + step_x(se),
                y + step_y(se),
            ) {
                seq![(p, next_point(se, p), Direction(se as isize), false)]
            } else {
                seq![]
            };
            let ahead = if (open_n || open_e) && open_ne {
                seq![(p, next_point(ne, p), Direction(ne as isize), false)]
            } else {
                seq![]
            };
            if self.jump_found(p, n).len() > 0 || self.jump_found(p, e).len() > 0 {
                turn + self.jump_found(p, n) + self.jump_found(p, e) + ahead
            } else if (!open_n && !open_e) || !open_ne || step_x(ne) == 0 {
                turn
            } else {
                turn + self.diag_walk_found(x + step_x(ne), y + step_y(ne), goal, ne)
            }
        }
    }

    /// Whether `f`, listed by a diagonal search heading `ne`, is justified by
    /// the tiles around its origin `p` (sides named as seen heading `ne`:
    /// `n` and `e` the two axes of the diagonal, `w` and `s` the tiles
    /// behind them, `nw` and `se` the diagonals beside it): the goal entry
    /// lines up with the goal; a turn heading `nw` has `w` closed and `n`
    /// and `nw` open; a turn heading `se` has `s` closed and `e` and `se`
    /// open (and no turn heading `nw`); the step on heading `ne` has `ne`
    /// open and `n` or `e` open; an entry heading `n` or `e` is the jump
    /// point that `p` keeps that way.
    #[verifier::opaque]
    pub open spec fn diag_entry_ok(&self, goal: Point, ne: int, f: Found) -> bool {
        let p = f.0;
        let t = f.1;
        let px = p.0 as int;
        let py = p.1 as int;
        let n = (ne + 7) % 8;
        let e = (ne + 1) % 8;
        let w = (ne + 5) % 8;
        let s = (ne + 3) % 8;
        let nw = (ne + 6) % 8;
        let se = (ne + 2) % 8;
        let turn_nw = !self.open_at(px + step_x(w), py + step_y(w)) && self.open_at(px + step_x(n), py + step_y(n))
            && self.open_at(px + step_x(nw), py + step_y(nw));
        if f.3 {
            t == p && f.2 == Direction(ne as isize) && lines_up_spec(*self, px, py, goal.0 as int, goal.1 as int)
        } else if f.2 == Direction(nw as isize) {
            t == next_point(nw, p) && turn_nw
        } else if f.2 == Direction(se as isize) {
            t == next_point(se, p) && !turn_nw && !self.open_at(px + step_x(s), py + step_y(s)) && self.open_at(
                px + step_x(e),
                py + step_y(e),
            ) && self.open_at(px + step_x(se), py + step_y(se))
        } else if f.2 == Direction(ne as isize) {
            t == next_point(ne, p) && self.open_at(px + step_x(ne), py + step_y(ne)) && (self.open_at(
                px + step_x(n),
                py + step_y(n),
            ) || self.open_at(px + step_x(e), py + step_y(e)))
        } else if f.2 == Direction(n as isize) || f.2 == Direction(e as isize) {
            let d = f.2.0 as int;
            let k = jump_dist_of(self.jumps(px, py), d);
            k > 0 && t == Point(far_point(d, px, py, k).0 as isize, far_point(d, px, py, k).1 as isize)
        } else {
            false
        }
    }

    proof fn lemma_entries_add(&self, goal: Point, ne: int, a: Seq<Found>, b: Seq<Found>)
        requires
            forall|i: int| 0 <= i < a.len() ==> self.diag_entry_ok(goal, ne, #[trigger] a[i]),
            forall|i: int| 0 <= i < b.len() ==> self.diag_entry_ok(goal, ne, #[trigger] b[i]),
        ensures
            forall|i: int| 0 <= i < (a + b).len() ==> self.diag_entry_ok(goal, ne, #[trigger] (a + b)[i]),
    {
        assert forall|i: int| 0 <= i < (a + b).len() implies self.diag_entry_ok(goal, ne, #[trigger] (a + b)[i]) by {
            if i < a.len() {
                assert((a + b)[i] == a[i]);
            } else {
                assert((a + b)[i] == b[i - a.len()]);
            }
        }
    }

    /// The turn around a wall that a diagonal search heading `ne` lists at
    /// `(x, y)`.
    spec fn diag_turn(&self, x: int, y: int, ne: int) -> Seq<Found> {
        let p = Point(x as isize, y as isize);
        let n = rotate_cc_spec(1, ne);
        let e = rotate_c_spec(1, ne);
        let w = rotate_cc_spec(3, ne);
        let s = rotate_c_spec(3, ne);
        let nw = rotate_cc_spec(2, ne);
        let se = rotate_c_spec(2, ne);
        if !self.open_at(x + step_x(w), y + step_y(w)) && self.open_at(x + step_x(n), y + step_y(n)) && self.open_at(
            x + step_x(nw),
            y + step_y(nw),
        ) {
            seq![(p, next_point(nw, p), Direction(nw as isize), false)]
        } else if !self.open_at(x + step_x(s), y + step_y(s)) && self.open_at(x + step_x(e), y + step_y(e))
            && self.open_at(x + step_x(se), y + step_y(se)) {
            seq![(p, next_point(se, p), Direction(se as isize), false)]
        } else {
            seq![]
        }
    }

    /// The step on that a diagonal search heading `ne` lists at `(x, y)`.
    spec fn diag_ahead(&self, x: int, y: int, ne: int) -> Seq<Found> {
        let p = Point(x as isize, y as isize);
        let n = rotate_cc_spec(1, ne);
        let e = rotate_c_spec(1, ne);
        if (self.open_at(x + step_x(n), y + step_y(n)) || self.open_at(x + step_x(e), y + step_y(e)))
            && self.open_at(x + step_x(ne), y + step_y(ne)) {
            seq![(p, next_point(ne, p), Direction(ne as isize), false)]
        } else {
            seq![]
        }
    }

    /// Whether every entry of `a` is justified (`diag_entry_ok`).
    spec fn entries_ok(&self, goal: Point, ne: int, a: Seq<Found>) -> bool {
        forall|i: int| 0 <= i < a.len() ==> self.diag_entry_ok(goal, ne, #[trigger] a[i])
    }

    /// The entries a diagonal search lists at `(x, y)` itself are justified.
    proof fn lemma_diag_local_ok(&self, x: int, y: int, goal: Point, ne: int)
        requires
            ne == 1 || ne == 3 || ne == 5 || ne == 7,
            isize::MIN <= x <= isize::MAX,
            isize::MIN <= y <= isize::MAX,
        ensures
            self.entries_ok(goal, ne, self.diag_turn(x, y, ne)),
            self.entries_ok(goal, ne, self.diag_ahead(x, y, ne)),
            self.entries_ok(goal, ne, self.jump_found(Point(x as isize, y as isize), rotate_cc_spec(1, ne))),
            self.entries_ok(goal, ne, self.jump_found(Point(x as isize, y as isize), rotate_c_spec(1, ne))),
            lines_up_spec(*self, x, y, goal.0 as int, goal.1 as int) ==> self.entries_ok(
                goal,
                ne,
                seq![(Point(x as isize, y as isize), Point(x as isize, y as isize), Direction(ne as isize), true)],
            ),
    {
        reveal(JumpGrid::diag_entry_ok);
        let p = Point(x as isize, y as isize);
        assert(p.0 as int == x && p.1 as int == y);
        assert(rotate_cc_spec(1, ne) == (ne + 7) % 8 && rotate_c_spec(1, ne) == (ne + 1) % 8 && rotate_cc_spec(3, ne)
            == (ne + 5) % 8 && rotate_c_spec(3, ne) == (ne + 3) % 8 && rotate_cc_spec(2, ne) == (ne + 6) % 8
            && rotate_c_spec(2, ne) == (ne + 2) % 8);
        let t = self.diag_turn(x, y, ne);
        let a = self.diag_ahead(x, y, ne);
        let jn = self.jump_found(p, rotate_cc_spec(1, ne));
        let je = self.jump_found(p, rotate_c_spec(1, ne));
        assert forall|i: int| 0 <= i < t.len() implies self.diag_entry_ok(goal, ne, #[trigger] t[i]) by {
            assert(t[i] == t[0]);
        }
        assert forall|i: int| 0 <= i < a.len() implies self.diag_entry_ok(goal, ne, #[trigger] a[i]) by {
            assert(a[i] == a[0]);
        }
        assert forall|i: int| 0 <= i < jn.len() implies self.diag_entry_ok(goal, ne, #[trigger] jn[i]) by {
            assert(jn[i] == jn[0]);
        }
        assert forall|i: int| 0 <= i < je.len() implies self.diag_entry_ok(goal, ne, #[trigger] je[i]) by {
            assert(je[i] == je[0]);
        }
    }

    /// Every entry that a diagonal search lists is justified by the tiles
    /// around where it was found: turns only around walls, a step on only
    /// where the way is open, jump points only where the tile keeps one, the
    /// goal only where it lines up (see `diag_entry_ok`).
    pub proof fn lemma_diag_entries(&self, x: int, y: int, goal: Point, ne: int)
        requires
            ne == 1 || ne == 3 || ne == 5 || ne == 7,
            isize::MIN <= x <= isize::MAX,
            isize::MIN <= y <= isize::MAX,
        ensures
            forall|i: int|
                0 <= i < self.diag_walk_found(x, y, goal, ne).len() ==> self.diag_entry_ok(
                    goal,
                    ne,
                    #[trigger] self.diag_walk_found(x, y, goal, ne)[i],
                ),
        decreases diag_room(ne, x, self.width()),
    {
        let p = Point(x as isize, y as isize);
        let n = rotate_cc_spec(1, ne);
        let e = rotate_c_spec(1, ne);
        let open_n = self.open_at(x + step_x(n), y + step_y(n));
        let open_e = self.open_at(x + step_x(e), y + step_y(e));
        let open_ne = self.open_at(x + step_x(ne), y + step_y(ne));
        let all = self.diag_walk_found(x, y, goal, ne);
        self.lemma_diag_local_ok(x, y, goal, ne);
        let turn = self.diag_turn(x, y, ne);
        let jn = self.jump_found(p, n);
        let je = self.jump_found(p, e);
        let ahead = self.diag_ahead(x, y, ne);
        if lines_up_spec(*self, x, y, goal.0 as int, goal.1 as int) {
            assert(all == seq![(p, p, Direction(ne as isize), true)]);
        } else if jn.len() > 0 || je.len() > 0 {
            self.lemma_entries_add(goal, ne, turn, jn);
            self.lemma_entries_add(goal, ne, turn + jn, je);
            self.lemma_entries_add(goal, ne, turn + jn + je, ahead);
            assert(all == turn + jn + je + ahead);
        } else if (!open_n && !open_e) || !open_ne || step_x(ne) == 0 {
            assert(all == turn);
        } else {
            let nx = x + step_x(ne);
            let ny = y + step_y(ne);
            assert(self.in_grid(nx, ny));
            self.lemma_diag_entries(nx, ny, goal, ne);
            self.lemma_entries_add(goal, ne, turn, self.diag_walk_found(nx, ny, goal, ne));
            assert(all == turn + self.diag_walk_found(nx, ny, goal, ne));
        }
    }

    /// What expanding a node at `xy` heading in direction `dir` finds.
    pub open spec fn expand_spec(&self, xy: Point, goal: Point, dir: int) -> Seq<Found> {
        if is_axis(dir) {
            self.expand_axis_spec(xy, dir)
        } else {
            self.diag_walk_found(xy.0 as int, xy.1 as int, goal, dir)
        }
    }

    /// Appends `(p, d)` to `r` when `b` holds, `p` being open then.
    fn push_start_if(&self, r: &mut Vec<(Point, Direction)>, b: bool, p: Point, d: Direction)
        requires
            b ==> self.open_at(p.0 as int, p.1 as int),
            forall|k: int| 0 <= k < old(r)@.len() ==> self.open_at((#[trigger] old(r)@[k]).0.0 as int, old(r)@[k].0.1 as int),
        ensures
            final(r)@ == old(r)@ + start_if(b, p, d.0 as int),
            forall|k: int| 0 <= k < final(r)@.len() ==> self.open_at((#[trigger] final(r)@[k]).0.0 as int, final(r)@[k].0.1 as int),
    {
        if b {
            r.push((p, d));
        }
        assert(r@ =~= old(r)@ + start_if(b, p, d.0 as int));
    }

    /// A search from `xy` starts toward each of the eight tiles around it
    /// exactly when that tile is open and, for a diagonal tile, at least one
    /// of the two tiles between it and `xy` is open too.
    pub proof fn lemma_init_open_neighbours(&self, xy: Point)
        ensures
            forall|d: int|
                0 <= d < 8 ==> (#[trigger] self.init_open_spec(xy).contains((next_point(d, xy), Direction(d as isize)))
                    <==> (self.open_at(xy.0 + step_x(d), xy.1 + step_y(d)) && (d % 2 == 0 || self.open_at(
                    xy.0 + step_x(d),
                    xy.1 as int,
                ) || self.open_at(xy.0 as int, xy.1 + step_y(d))))),
    {
        let n = self.open_toward(xy, 0);
        let s = self.open_toward(xy, 4);
        let e = self.open_toward(xy, 2);
        let w = self.open_toward(xy, 6);
        let a0 = start_if(n, next_point(0, xy), 0);
        let a1 = start_if(s, next_point(4, xy), 4);
        let a2 = start_if(e, next_point(2, xy), 2);
        let a3 = start_if(w, next_point(6, xy), 6);
        let a4 = start_if((n || e) && self.open_toward(xy, 1), next_point(1, xy), 1);
        let a5 = start_if((n || w) && self.open_toward(xy, 7), next_point(7, xy), 7);
        let a6 = start_if((s || e) && self.open_toward(xy, 3), next_point(3, xy), 3);
        let a7 = start_if((s || w) && self.open_toward(xy, 5), next_point(5, xy), 5);
        assert(self.init_open_spec(xy) == a0 + a1 + a2 + a3 + a4 + a5 + a6 + a7);
        assert forall|d: int| 0 <= d < 8 implies (#[trigger] self.init_open_spec(xy).contains(
            (next_point(d, xy), Direction(d as isize)),
        ) <==> (self.open_at(xy.0 + step_x(d), xy.1 + step_y(d)) && (d % 2 == 0 || self.open_at(
            xy.0 + step_x(d),
            xy.1 as int,
        ) || self.open_at(xy.0 as int, xy.1 + step_y(d))))) by {
            let x = (next_point(d, xy), Direction(d as isize));
            lemma_concat_contains(a0, a1, x);
            lemma_concat_contains(a0 + a1, a2, x);
            lemma_concat_contains(a0 + a1 + a2, a3, x);
            lemma_concat_contains(a0 + a1 + a2 + a3, a4, x);
            lemma_concat_contains(a0 + a1 + a2 + a3 + a4, a5, x);
            lemma_concat_contains(a0 + a1 + a2 + a3 + a4 + a5, a6, x);
            lemma_concat_contains(a0 + a1 + a2 + a3 + a4 + a5 + a6, a7, x);
            lemma_start_if_contains(n, next_point(0, xy), 0, x);
            lemma_start_if_contains(s, next_point(4, xy), 4, x);
            lemma_start_if_contains(e, next_point(2, xy), 2, x);
            lemma_start_if_contains(w, next_point(6, xy), 6, x);
            lemma_start_if_contains((n || e) && self.open_toward(xy, 1), next_point(1, xy), 1, x);
            lemma_start_if_contains((n || w) && self.open_toward(xy, 7), next_point(7, xy), 7, x);
            lemma_start_if_contains((s || e) && self.open_toward(xy, 3), next_point(3, xy), 3, x);
            lemma_start_if_contains((s || w) && self.open_toward(xy, 5), next_point(5, xy), 5, x);
        }
    }

    /// Expanding a node at `xy` heading along axis `n`, with the tile ahead
    /// open, lists exactly one entry heading `n` when `xy` keeps a jump
    /// distance `k > 0` that way, pointing at the tile `k` steps ahead, and
    /// none heading `n` otherwise.
    pub proof fn lemma_axis_jump_entry(&self, xy: Point, n: int)
        requires
            is_axis(n),
        ensures
            self.open_at(xy.0 + step_x(n), xy.1 + step_y(n)) ==> ({
                let k = jump_dist_of(self.jumps(xy.0 as int, xy.1 as int), n);
                let f = far_point(n, xy.0 as int, xy.1 as int, k);
                forall|i: int|
                    0 <= i < self.expand_axis_spec(xy, n).len() && (#[trigger] self.expand_axis_spec(xy, n)[i]).2
                        == Direction(n as isize) ==> k > 0 && i == 0 && self.expand_axis_spec(xy, n)[i] == (
                        xy,
                        Point(f.0 as isize, f.1 as isize),
                        Direction(n as isize),
                        false,
                    )
            }),
            self.open_at(xy.0 + step_x(n), xy.1 + step_y(n)) && jump_dist_of(self.jumps(xy.0 as int, xy.1 as int), n)
                > 0 ==> self.expand_axis_spec(xy, n).len() > 0 && self.expand_axis_spec(xy, n)[0].2 == Direction(
                n as isize,
            ),
    {
        let e = rotate_c_spec(2, n);
        let w = rotate_cc_spec(2, n);
        let nw = rotate_cc_spec(1, n);
        let ne = rotate_c_spec(1, n);
        if self.open_toward(xy, n) {
            let j = self.jump_found(xy, n);
            let b1: Seq<Found> = if self.open_toward(xy, nw) && !self.open_toward(xy, w) {
                seq![(xy, next_point(nw, xy), Direction(nw as isize), false)]
            } else {
                seq![]
            };
            let b2: Seq<Found> = if self.open_toward(xy, ne) && !self.open_toward(xy, e) {
                seq![(xy, next_point(ne, xy), Direction(ne as isize), false)]
            } else {
                seq![]
            };
            let all = self.expand_axis_spec(xy, n);
            assert(all == j + b1 + b2);
            assert forall|i: int|
                0 <= i < all.len() && (#[trigger] all[i]).2 == Direction(n as isize) implies i < j.len() by {
                if i >= j.len() {
                    if i - j.len() < b1.len() {
                        assert(all[i] == b1[i - j.len()]);
                    } else {
                        assert(all[i] == b2[i - j.len() - b1.len()]);
                    }
                }
            }
            if j.len() > 0 {
                assert(all[0] == j[0]);
            }
        }
    }

    /// Expanding a node at `xy` heading along axis `n`, with the tile ahead
    /// open, lists a diagonal neighbour ahead (to either side of `n`) as a
    /// forced neighbour exactly when that diagonal tile is open and the side
    /// tile between it and `xy` is closed; with the tile ahead closed it
    /// lists nothing.
    pub proof fn lemma_axis_forced_neighbours(&self, xy: Point, n: int)
        requires
            is_axis(n),
        ensures
            !self.open_at(xy.0 + step_x(n), xy.1 + step_y(n)) ==> self.expand_axis_spec(xy, n).len() == 0,
            forall|d: int|
                d == (n + 1) % 8 || d == (n + 7) % 8 ==> (#[trigger] self.expand_axis_spec(xy, n).contains(
                    (xy, next_point(d, xy), Direction(d as isize), false),
                ) <==> (self.open_at(xy.0 + step_x(n), xy.1 + step_y(n)) && self.open_at(
                    xy.0 + step_x(d),
                    xy.1 + step_y(d),
                ) && !self.open_at(xy.0 + step_x(d) - step_x(n), xy.1 + step_y(d) - step_y(n)))),
    {
        let e = rotate_c_spec(2, n);
        let w = rotate_cc_spec(2, n);
        let nw = rotate_cc_spec(1, n);
        let ne = rotate_c_spec(1, n);
        let j = self.jump_found(xy, n);
        let b1: Seq<Found> = if self.open_toward(xy, nw) && !self.open_toward(xy, w) {
            seq![(xy, next_point(nw, xy), Direction(nw as isize), false)]
        } else {
            seq![]
        };
        let b2: Seq<Found> = if self.open_toward(xy, ne) && !self.open_toward(xy, e) {
            seq![(xy, next_point(ne, xy), Direction(ne as isize), false)]
        } else {
            seq![]
        };
        assert forall|d: int|
            d == (n + 1) % 8 || d == (n + 7) % 8 implies (#[trigger] self.expand_axis_spec(xy, n).contains(
                (xy, next_point(d, xy), Direction(d as isize), false),
            ) <==> (self.open_at(xy.0 + step_x(n), xy.1 + step_y(n)) && self.open_at(
                xy.0 + step_x(d),
                xy.1 + step_y(d),
            ) && !self.open_at(xy.0 + step_x(d) - step_x(n), xy.1 + step_y(d) - step_y(n)))) by {
            let x = (xy, next_point(d, xy), Direction(d as isize), false);
            if self.open_toward(xy, n) {
                assert(self.expand_axis_spec(xy, n) == j + b1 + b2);
                lemma_concat_contains(j, b1, x);
                lemma_concat_contains(j + b1, b2, x);
                if j.contains(x) {
                    let i = choose|i: int| 0 <= i < j.len() && j[i] == x;
                    assert(j[i].2 == Direction(n as isize));
                }
                if b1.contains(x) {
                    let i = choose|i: int| 0 <= i < b1.len() && b1[i] == x;
                    assert(b1[i] == x);
                }
                if b2.contains(x) {
                    let i = choose|i: int| 0 <= i < b2.len() && b2[i] == x;
                    assert(b2[i] == x);
                }
                if d == nw && self.open_toward(xy, nw) && !self.open_toward(xy, w) {
                    assert(b1[0] == x);
                }
                if d == ne && self.open_toward(xy, ne) && !self.open_toward(xy, e) {
                    assert(b2[0] == x);
                }
            } else {
                assert(self.expand_axis_spec(xy, n).len() == 0);
            }
        }
    }

    /// The first nodes of a search from `xy`, in the order they are tried.
    pub fn init_open(&self, xy: Point) -> (r: Vec<(Point, Direction)>)
        requires
            self.wf(),
            isize::MIN < xy.0 < isize::MAX,
            isize::MIN < xy.1 < isize::MAX,
        ensures
            r@ == self.init_open_spec(xy),
            forall|k: int| 0 <= k < r@.len() ==> self.open_at((#[trigger] r@[k]).0.0 as int, r@[k].0.1 as int),
    {
        let n = step(Direction(0), xy);
        let s = step(Direction(4), xy);
        let e = step(Direction(2), xy);
        let w = step(Direction(6), xy);
        let ne = step(Direction(1), xy);
        let nw = step(Direction(7), xy);
        let se = step(Direction(3), xy);
        let sw = step(Direction(5), xy);
        let n_open = self.is_open(n);
        let s_open = self.is_open(s);
        let e_open = self.is_open(e);
        let w_open = self.is_open(w);
        let ne_open = self.is_open(ne);
        let nw_open = self.is_open(nw);
        let se_open = self.is_open(se);
        let sw_open = self.is_open(sw);
        let mut r: Vec<(Point, Direction)> = Vec::with_capacity(8);
        self.push_start_if(&mut r, n_open, n, Direction(0));
        self.push_start_if(&mut r, s_open, s, Direction(4));
        self.push_start_if(&mut r, e_open, e, Direction(2));
        self.push_start_if(&mut r, w_open, w, Direction(6));
        self.push_start_if(&mut r, (n_open || e_open) && ne_open, ne, Direction(1));
        self.push_start_if(&mut r, (n_open || w_open) && nw_open, nw, Direction(7));
        self.push_start_if(&mut r, (s_open || e_open) && se_open, se, Direction(3));
        self.push_start_if(&mut r, (s_open || w_open) && sw_open, sw, Direction(5));
        assert(n == next_point(0, xy) && s == next_point(4, xy) && e == next_point(2, xy) && w == next_point(6, xy));
        assert(ne == next_point(1, xy) && nw == next_point(7, xy) && se == next_point(3, xy) && sw == next_point(5, xy));
        r
    }

    /// What expanding a node at `xy` heading in axis direction `n` finds.
    fn expand_axis(&self, xy: Point, n: Direction) -> (r: Vec<Found>)
        requires
            self.wf(),
            is_axis(n.0 as int),
            self.in_grid(xy.0 as int, xy.1 as int),
        ensures
            r@ == self.expand_axis_spec(xy, n.0 as int),
            forall|k: int| 0 <= k < r@.len() ==> self.in_grid((#[trigger] r@[k]).1.0 as int, r@[k].1.1 as int),
    {
        let mut vec: Vec<Found> = Vec::new();
        let e = rotate_c(Degree(2), n);
        let w = rotate_cc(Degree(2), n);
        let nw = rotate_cc(Degree(1), n);
        let ne = rotate_c(Degree(1), n);
        let n_xy = step(n, xy);
        let e_xy = step(e, xy);
        let w_xy = step(w, xy);
        let ne_xy = step(ne, xy);
        let nw_xy = step(nw, xy);
        if self.is_open(n_xy) {
            if let Some(n_jump) = self.get_jump(n, xy) {
                vec.push((xy, n_jump, n, false));
            }
            let ghost mid = vec@;
            assert(mid =~= self.jump_found(xy, n.0 as int));
            if self.is_open(nw_xy) && !self.is_open(w_xy) {
                vec.push((xy, nw_xy, nw, false));
            }
            let ghost mid2 = vec@;
            if self.is_open(ne_xy) && !self.is_open(e_xy) {
                vec.push((xy, ne_xy, ne, false));
            }
            assert(nw_xy == next_point(nw.0 as int, xy) && ne_xy == next_point(ne.0 as int, xy));
            assert(vec@ =~= self.expand_axis_spec(xy, n.0 as int));
        } else {
            assert(vec@ =~= self.expand_axis_spec(xy, n.0 as int));
        }
        vec
    }

    /// One step of a walk in diagonal direction `ne` at `p`: what it finds
    /// there, and whether the walk ends there.
    #[verifier::rlimit(30)]
    fn diag_step(&self, p: Point, goal: Point, ne: Direction) -> (r: (Vec<Found>, bool))
        requires
            self.wf(),
            is_compass(ne.0 as int),
            !is_axis(ne.0 as int),
            self.in_grid(p.0 as int, p.1 as int),
        ensures
            r.1 ==> r.0@ == self.diag_walk_found(p.0 as int, p.1 as int, goal, ne.0 as int),
            !r.1 ==> self.in_grid(p.0 + step_x(ne.0 as int), p.1 + step_y(ne.0 as int)) && r.0@
                + self.diag_walk_found(p.0 + step_x(ne.0 as int), p.1 + step_y(ne.0 as int), goal, ne.0 as int)
                == self.diag_walk_found(p.0 as int, p.1 as int, goal, ne.0 as int),
            forall|k: int| 0 <= k < r.0@.len() ==> self.in_grid((#[trigger] r.0@[k]).1.0 as int, r.0@[k].1.1 as int),
    {
        let ghost walk = self.diag_walk_found(p.0 as int, p.1 as int, goal, ne.0 as int);
        let mut vec: Vec<Found> = Vec::new();
        if self.lines_up(p, goal) {
            vec.push((p, p, ne, true));
            assert(vec@ =~= walk);
            return (vec, true);
        }
        let n = rotate_cc(Degree(1), ne);
        let e = rotate_c(Degree(1), ne);
        let w = rotate_cc(Degree(3), ne);
        let s = rotate_c(Degree(3), ne);
        let nw = rotate_cc(Degree(2), ne);
        let se = rotate_c(Degree(2), ne);
        let n_xy = step(n, p);
        let e_xy = step(e, p);
        let w_xy = step(w, p);
        let s_xy = step(s, p);
        let ne_xy = step(ne, p);
        let nw_xy = step(nw, p);
        let se_xy = step(se, p);
        if !self.is_open(w_xy) && self.is_open(n_xy) && self.is_open(nw_xy) {
            vec.push((p, nw_xy, nw, false));
        } else if !self.is_open(s_xy) && self.is_open(e_xy) && self.is_open(se_xy) {
            vec.push((p, se_xy, se, false));
        }
        let ghost turned = vec@;
        let n_jump = self.get_jump(n, p);
        let e_jump = self.get_jump(e, p);
        let diag_ok = (self.is_open(n_xy) || self.is_open(e_xy)) && self.is_open(ne_xy);
        assert(nw_xy == next_point(nw.0 as int, p) && se_xy == next_point(se.0 as int, p) && ne_xy == next_point(
            ne.0 as int,
            p,
        ));
        if n_jump.is_some() || e_jump.is_some() {
            if let Some(q) = n_jump {
                vec.push((p, q, n, false));
            }
            let ghost after_n = vec@;
            assert(after_n =~= turned + self.jump_found(p, n.0 as int));
            if let Some(q) = e_jump {
                vec.push((p, q, e, false));
            }
            let ghost after_e = vec@;
            assert(after_e =~= after_n + self.jump_found(p, e.0 as int));
            if diag_ok {
                vec.push((p, ne_xy, ne, false));
            }
            assert(vec@ =~= walk);
            return (vec, true);
        }
        if !self.is_open(n_xy) && !self.is_open(e_xy) || !self.is_open(ne_xy) {
            assert(vec@ =~= walk);
            return (vec, true);
        }
        (vec, false)
    }

    /// What a walk from `xy` in diagonal direction `ne` finds.
    fn expand_diag(&self, xy: Point, goal: Point, ne: Direction) -> (r: Vec<Found>)
        requires
            self.wf(),
            is_compass(ne.0 as int),
            !is_axis(ne.0 as int),
            self.in_grid(xy.0 as int, xy.1 as int),
        ensures
            r@ == self.diag_walk_found(xy.0 as int, xy.1 as int, goal, ne.0 as int),
            forall|k: int| 0 <= k < r@.len() ==> self.in_grid((#[trigger] r@[k]).1.0 as int, r@[k].1.1 as int),
    {
        let mut vec: Vec<Found> = Vec::new();
        let mut p = xy;
        loop
            invariant
                self.wf(),
                is_compass(ne.0 as int),
                !is_axis(ne.0 as int),
                self.in_grid(p.0 as int, p.1 as int),
                vec@ + self.diag_walk_found(p.0 as int, p.1 as int, goal, ne.0 as int)
                    == self.diag_walk_found(xy.0 as int, xy.1 as int, goal, ne.0 as int),
                forall|k: int| 0 <= k < vec@.len() ==> self.in_grid((#[trigger] vec@[k]).1.0 as int, vec@[k].1.1 as int),
            decreases diag_room(ne.0 as int, p.0 as int, self.width()),
        {
            let ghost before = vec@;
            let (mut piece, done) = self.diag_step(p, goal, ne);
            let ghost found = piece@;
            vec.append(&mut piece);
            if done {
                return vec;
            }
            assert(vec@ == before + found);
            let next = step(ne, p);
            assert((before + found) + self.diag_walk_found(next.0 as int, next.1 as int, goal, ne.0 as int)
                =~= before + (found + self.diag_walk_found(next.0 as int, next.1 as int, goal, ne.0 as int)));
            p = next;
        }
    }

    /// What expanding a node at `xy` heading in direction `dir` finds.
    pub fn expand_node(&self, xy: Point, goal: Point, dir: Direction) -> (r: Vec<Found>)
        requires
            self.wf(),
            is_compass(dir.0 as int),
            self.in_grid(xy.0 as int, xy.1 as int),
        ensures
            r@ == self.expand_spec(xy, goal, dir.0 as int),
            forall|k: int| 0 <= k < r@.len() ==> self.in_grid((#[trigger] r@[k]).1.0 as int, r@[k].1.1 as int),
    {
        if dir.0 == 0 || dir.0 == 2 || dir.0 == 4 || dir.0 == 6 {
            self.expand_axis(xy, dir)
        } else {
            self.expand_diag(xy, goal, dir)
        }
    }
}

} // verus!
