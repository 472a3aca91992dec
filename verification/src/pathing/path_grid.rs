//! The path grid each team searches: open and closed tiles packed in a bit
//! vector, the jump distances of jump point search kept up to date as areas
//! open and close, straight-line checks, and the search for the open tile
//! nearest a closed one.
use crate::jps::Jumps;
use crate::libs::bitvec::{
    abs_diff, cell_index, lemma_cell_index, lemma_trace_fuel, lemma_trace_step, trace_err0,
    trace_extents, trace_from, trace_inv, trace_measure, trace_signs, trace_spec, trace_step,
};
use crate::libs::bytegrid::{bits_index, bits_push, bits_set, bits_with_capacity, packed_bits};
use crate::pathing::direction::{
    is_compass, rotate_c, rotate_c_spec, rotate_cc, rotate_cc_spec, step_x, step_y, translate,
    Degree, Direction, EAST, NORTH, NORTHEAST, NORTHWEST, SOUTH, SOUTHEAST, SOUTHWEST, WEST,
};
use bit_vec::BitVec as PackedBits;
use vstd::prelude::*;

verus! {

/// Whether `d` is one of the four axis directions.
pub open spec fn is_axis_dir(d: int) -> bool {
    d == 0 || d == 2 || d == 4 || d == 6
}

/// The stored distance of `j` in axis direction `d` (0, 2, 4 or 6).
pub open spec fn dist_in(j: Jumps, d: int) -> int {
    if d == 0 {
        j.nj as int
    } else if d == 2 {
        j.ej as int
    } else if d == 4 {
        j.sj as int
    } else {
        j.wj as int
    }
}

/// `j` with its distance in axis direction `d` replaced by `v`.
pub open spec fn set_dist_in(j: Jumps, d: int, v: u16) -> Jumps {
    if d == 0 {
        Jumps { nj: v, ..j }
    } else if d == 2 {
        Jumps { ej: v, ..j }
    } else if d == 4 {
        Jumps { sj: v, ..j }
    } else {
        Jumps { wj: v, ..j }
    }
}

/// The point `k` steps from `(x, y)` in direction `d`.
pub open spec fn steps(d: int, x: int, y: int, k: int) -> (int, int) {
    if d == 0 {
        (x, y + k)
    } else if d == 1 {
        (x + k, y + k)
    } else if d == 2 {
        (x + k, y)
    } else if d == 3 {
        (x + k, y - k)
    } else if d == 4 {
        (x, y - k)
    } else if d == 5 {
        (x - k, y - k)
    } else if d == 6 {
        (x - k, y)
    } else {
        (x - k, y + k)
    }
}

/// How many steps in direction `d` lead from `(x, y)` out of a `w` by `h`
/// grid, counting the axis that runs out first.
pub open spec fn steps_out(d: int, x: int, y: int, w: int, h: int) -> int {
    let ex = if step_x(d) > 0 {
        w - x
    } else if step_x(d) < 0 {
        x + 1
    } else {
        w + h + 2
    };
    let ey = if step_y(d) > 0 {
        h - y
    } else if step_y(d) < 0 {
        y + 1
    } else {
        w + h + 2
    };
    if ex < ey {
        ex
    } else {
        ey
    }
}

/// The tile next to `p` in direction `d`.
fn next_to(d: Direction, p: (isize, isize)) -> (r: (isize, isize))
    requires
        is_compass(d.0 as int),
        isize::MIN < p.0 < isize::MAX,
        isize::MIN < p.1 < isize::MAX,
    ensures
        r.0 == p.0 + step_x(d.0 as int),
        r.1 == p.1 + step_y(d.0 as int),
        (r.0 as int, r.1 as int) == steps(d.0 as int, p.0 as int, p.1 as int, 1),
{
    translate(1, d, p)
}

/// The tile next to `p` in direction `d`.
pub open spec fn next_to_spec(d: Direction, p: (isize, isize)) -> (isize, isize) {
    ((p.0 + step_x(d.0 as int)) as isize, (p.1 + step_y(d.0 as int)) as isize)
}

/// Whether `(x, y)` lies in the rectangle with corners `p0` and `p1`.
pub open spec fn in_box(p0: (isize, isize), p1: (isize, isize), x: int, y: int) -> bool {
    &&& (p0.0 <= x <= p1.0 || p1.0 <= x <= p0.0)
    &&& (p0.1 <= y <= p1.1 || p1.1 <= y <= p0.1)
}

/// Whether `(x, y)` lies in the rectangle with corners `p0` and `p1` or in
/// the ring of tiles around it.
pub open spec fn near_box(p0: (isize, isize), p1: (isize, isize), x: int, y: int) -> bool {
    let x_min: int = if p0.0 < p1.0 { p0.0 as int } else { p1.0 as int };
    let x_max: int = if p0.0 < p1.0 { p1.0 as int } else { p0.0 as int };
    let y_min: int = if p0.1 < p1.1 { p0.1 as int } else { p1.1 as int };
    let y_max: int = if p0.1 < p1.1 { p1.1 as int } else { p0.1 as int };
    x_min - 1 <= x <= x_max + 1 && y_min - 1 <= y <= y_max + 1
}

/// No jump distances.
pub open spec fn zero_jumps() -> Jumps {
    Jumps { nj: 0, ej: 0, sj: 0, wj: 0 }
}

/// Whether the walk from `(x, y)` toward `goal` (the walk `trace_from`
/// takes) meets only open tiles, and never steps diagonally between two
/// closed tiles.
pub open spec fn clear_from(
    open: spec_fn(int, int) -> bool,
    x: int,
    y: int,
    err: int,
    goal: (int, int),
    d: (int, int),
    s: (int, int),
    fuel: nat,
) -> bool
    decreases fuel,
{
    if !open(x, y) {
        false
    } else if (x == goal.0 && y == goal.1) || fuel == 0 {
        true
    } else {
        let n = trace_step(x, y, err, d, s);
        if n.0 != x && n.1 != y && !open(x + s.0, y) && !open(x, y + s.1) {
            false
        } else {
            clear_from(open, n.0, n.1, n.2, goal, d, s, (fuel - 1) as nat)
        }
    }
}

/// Whether the traced line from `p0` to `p1` is clear.
pub open spec fn line_open_spec(open: spec_fn(int, int) -> bool, p0: (int, int), p1: (int, int)) -> bool {
    let d = trace_extents(p0, p1);
    clear_from(open, p0.0, p0.1, trace_err0(d), p1, d, trace_signs(p0, p1), (d.0 + d.1) as nat)
}

/// A clear walk meets only open tiles: every tile of the traced line is open.
proof fn lemma_clear_tiles_open(
    open: spec_fn(int, int) -> bool,
    x: int,
    y: int,
    err: int,
    goal: (int, int),
    d: (int, int),
    s: (int, int),
    fuel: nat,
)
    requires
        clear_from(open, x, y, err, goal, d, s, fuel),
    ensures
        forall|k: int|
            0 <= k < trace_from(x, y, err, goal, d, s, fuel).len() ==> open(
                #[trigger] trace_from(x, y, err, goal, d, s, fuel)[k].0,
                trace_from(x, y, err, goal, d, s, fuel)[k].1,
            ),
    decreases fuel,
{
    let t = trace_from(x, y, err, goal, d, s, fuel);
    if !((x == goal.0 && y == goal.1) || fuel == 0) {
        let n = trace_step(x, y, err, d, s);
        lemma_clear_tiles_open(open, n.0, n.1, n.2, goal, d, s, (fuel - 1) as nat);
        let rest = trace_from(n.0, n.1, n.2, goal, d, s, (fuel - 1) as nat);
        assert(t == seq![(x, y)] + rest);
        assert forall|k: int| 0 <= k < t.len() implies open(#[trigger] t[k].0, t[k].1) by {
            if k > 0 {
                assert(t[k] == rest[k - 1]);
            }
        }
    } else {
        assert(t == seq![(x, y)]);
    }
}

/// A straight line reported open crosses only open tiles: every tile of
/// the traced line from `p0` to `p1` is open.
pub proof fn lemma_open_line_tiles(open: spec_fn(int, int) -> bool, p0: (int, int), p1: (int, int))
    requires
        line_open_spec(open, p0, p1),
    ensures
        forall|k: int|
            0 <= k < trace_spec(p0, p1).len() ==> open(#[trigger] trace_spec(p0, p1)[k].0, trace_spec(p0, p1)[k].1),
{
    let d = trace_extents(p0, p1);
    lemma_clear_tiles_open(open, p0.0, p0.1, trace_err0(d), p1, d, trace_signs(p0, p1), (d.0 + d.1) as nat);
}

/// Any fuel that covers the rest of the walk gives the same answer.
proof fn lemma_clear_fuel(
    open: spec_fn(int, int) -> bool,
    x: int,
    y: int,
    err: int,
    goal: (int, int),
    d: (int, int),
    s: (int, int),
    err0: int,
    f1: nat,
    f2: nat,
)
    requires
        trace_inv(x, y, err, goal, d, s, err0),
        f1 >= trace_measure(x, y, goal, s),
        f2 >= trace_measure(x, y, goal, s),
    ensures
        clear_from(open, x, y, err, goal, d, s, f1) == clear_from(open, x, y, err, goal, d, s, f2),
    decreases f1,
{
    if !(x == goal.0 && y == goal.1) {
        lemma_trace_step(x, y, err, goal, d, s, err0);
        let n = trace_step(x, y, err, d, s);
        lemma_clear_fuel(open, n.0, n.1, n.2, goal, d, s, err0, (f1 - 1) as nat, (f2 - 1) as nat);
    }
}

/// Whether `(sx, sy)` and `(gx, gy)` are the same tile, or lie on one row or
/// column with every tile strictly between them open.
pub open spec fn lines_up_with(open: spec_fn(int, int) -> bool, sx: int, sy: int, gx: int, gy: int) -> bool {
    if sx != gx && sy != gy {
        false
    } else if sx == gx && sy == gy {
        true
    } else if sx == gx {
        forall|k: int| (sy < k < gy || gy < k < sy) ==> #[trigger] open(sx, k)
    } else {
        forall|k: int| (sx < k < gx || gx < k < sx) ==> #[trigger] open(k, sy)
    }
}

/// Whether `(x, y)` is a jump point for a search heading in axis direction
/// `d`, over the open tiles `open`: it and the tiles ahead and behind are
/// open, and a wall beside it ends right before an open diagonal tile ahead.
pub open spec fn axis_jump_of(open: spec_fn(int, int) -> bool, d: int, x: int, y: int) -> bool {
    let w = rotate_cc_spec(2, d);
    let nw = rotate_cc_spec(1, d);
    let s = rotate_c_spec(4, d);
    let ne = rotate_c_spec(1, d);
    let e = rotate_c_spec(2, d);
    &&& open(x, y)
    &&& open(x + step_x(d), y + step_y(d))
    &&& open(x + step_x(s), y + step_y(s))
    &&& ((!open(x + step_x(w), y + step_y(w)) && open(x + step_x(nw), y + step_y(nw))) || (!open(
        x + step_x(e),
        y + step_y(e),
    ) && open(x + step_x(ne), y + step_y(ne))))
}

/// Whether the tile `i` steps from `(x, y)` in direction `md` is open.
pub open spec fn step_open(open: spec_fn(int, int) -> bool, md: int, x: int, y: int, i: int) -> bool {
    let p = steps(md, x, y, i);
    open(p.0, p.1)
}

/// Whether the tile `i` steps from `(x, y)` in direction `md` is a jump
/// point for axis direction `jd`.
pub open spec fn step_jump(open: spec_fn(int, int) -> bool, jd: int, md: int, x: int, y: int, i: int) -> bool {
    let p = steps(md, x, y, i);
    axis_jump_of(open, jd, p.0, p.1)
}

/// Whether the tiles from one to `k - 1` steps from `(x, y)` in direction
/// `md` are all open, and none is a jump point for axis direction `jd`.
pub open spec fn clear_walk(open: spec_fn(int, int) -> bool, jd: int, md: int, x: int, y: int, k: int) -> bool {
    forall|i: int| 1 <= i < k ==> #[trigger] step_open(open, md, x, y, i) && !step_jump(open, jd, md, x, y, i)
}

/// Whether `k` is the distance from `(x, y)` to the first jump point ahead
/// in axis direction `d` over open tiles: `k` tiles ahead lies a jump point
/// with only open tiles, none of them a jump point, before it; or `k` is 0
/// and a closed tile comes first.
pub open spec fn ahead_is(open: spec_fn(int, int) -> bool, d: int, x: int, y: int, k: int) -> bool {
    if k > 0 {
        clear_walk(open, d, d, x, y, k) && step_jump(open, d, d, x, y, k)
    } else {
        k == 0 && exists|m: int| m >= 1 && #[trigger] clear_walk(open, d, d, x, y, m) && !step_open(open, d, x, y, m)
    }
}

/// At most one distance fits the definition: the distances that jump
/// points keep are determined by the open tiles.
pub proof fn lemma_ahead_unique(open: spec_fn(int, int) -> bool, d: int, x: int, y: int, k1: int, k2: int)
    requires
        ahead_is(open, d, x, y, k1),
        ahead_is(open, d, x, y, k2),
    ensures
        k1 == k2,
{
    if k1 > 0 && k2 > 0 {
        if k1 < k2 {
            assert(step_open(open, d, x, y, k1));
        } else if k2 < k1 {
            assert(step_open(open, d, x, y, k2));
        }
    } else if k1 > 0 {
        let m = choose|m: int| m >= 1 && #[trigger] clear_walk(open, d, d, x, y, m) && !step_open(open, d, x, y, m);
        if m <= k1 {
            if m < k1 {
                assert(step_open(open, d, x, y, m));
            }
        } else {
            assert(step_open(open, d, x, y, k1));
        }
    } else if k2 > 0 {
        let m = choose|m: int| m >= 1 && #[trigger] clear_walk(open, d, d, x, y, m) && !step_open(open, d, x, y, m);
        if m <= k2 {
            if m < k2 {
                assert(step_open(open, d, x, y, m));
            }
        } else {
            assert(step_open(open, d, x, y, k2));
        }
    }
}

/// Taking `a` steps and then `b` more is taking `a + b` steps.
pub proof fn lemma_steps_add(d: int, x: int, y: int, a: int, b: int)
    ensures
        steps(d, steps(d, x, y, a).0, steps(d, x, y, a).1, b) == steps(d, x, y, a + b),
{
}

/// Walking back `m` steps against axis direction `d` and then `t` steps
/// along it is walking back `m - t` steps.
pub proof fn lemma_steps_back(d: int, x: int, y: int, m: int, t: int)
    requires
        is_axis_dir(d),
    ensures
        steps(d, steps(rotate_c_spec(4, d), x, y, m).0, steps(rotate_c_spec(4, d), x, y, m).1, t)
            == steps(rotate_c_spec(4, d), x, y, m - t),
{
}

/// Walking `s` steps along axis direction `d` and then `j` steps back is
/// walking `s - j` steps along it.
pub proof fn lemma_steps_fwd_back(d: int, x: int, y: int, s: int, j: int)
    requires
        is_axis_dir(d),
    ensures
        steps(rotate_c_spec(4, d), steps(d, x, y, s).0, steps(d, x, y, s).1, j) == steps(d, x, y, s - j),
{
}

/// Different numbers of steps in one direction lead to different tiles.
pub proof fn lemma_steps_distinct(d: int, x: int, y: int, a: int, b: int)
    requires
        0 <= d < 8,
        a != b,
    ensures
        steps(d, x, y, a) != steps(d, x, y, b),
{
}

/// Along a run of open tiles that are not jump points, ending `n` steps
/// from `(x, y)` at a jump point, the tile `i` steps along lies `n - i`
/// steps before it.
pub proof fn lemma_run_to_jump(open: spec_fn(int, int) -> bool, d: int, x: int, y: int, n: int, i: int)
    requires
        0 <= i < n,
        clear_walk(open, d, d, x, y, n),
        step_jump(open, d, d, x, y, n),
    ensures
        ahead_is(open, d, steps(d, x, y, i).0, steps(d, x, y, i).1, n - i),
{
    let p = steps(d, x, y, i);
    assert forall|t: int| 1 <= t < n - i implies #[trigger] step_open(open, d, p.0, p.1, t) && !step_jump(
        open,
        d,
        d,
        p.0,
        p.1,
        t,
    ) by {
        lemma_steps_add(d, x, y, i, t);
        assert(step_open(open, d, x, y, i + t));
    }
    lemma_steps_add(d, x, y, i, n - i);
}

/// Along a run of open tiles that are not jump points, ending `n` steps
/// from `(x, y)` at a closed tile, no tile has a jump point ahead.
pub proof fn lemma_run_to_wall(open: spec_fn(int, int) -> bool, d: int, x: int, y: int, n: int, i: int)
    requires
        0 <= i < n,
        clear_walk(open, d, d, x, y, n),
        !step_open(open, d, x, y, n),
    ensures
        ahead_is(open, d, steps(d, x, y, i).0, steps(d, x, y, i).1, 0),
{
    let p = steps(d, x, y, i);
    assert forall|t: int| 1 <= t < n - i implies #[trigger] step_open(open, d, p.0, p.1, t) && !step_jump(
        open,
        d,
        d,
        p.0,
        p.1,
        t,
    ) by {
        lemma_steps_add(d, x, y, i, t);
        assert(step_open(open, d, x, y, i + t));
    }
    lemma_steps_add(d, x, y, i, n - i);
    assert(clear_walk(open, d, d, p.0, p.1, n - i));
}

/// Whether `(x, y)` is a jump point for a search heading in diagonal
/// direction `d`, over the open tiles `open`.
pub open spec fn diag_jump_of(open: spec_fn(int, int) -> bool, d: int, x: int, y: int) -> bool {
    let n = rotate_cc_spec(1, d);
    let s = rotate_c_spec(3, d);
    let e = rotate_c_spec(1, d);
    let w = rotate_cc_spec(3, d);
    let nw = rotate_cc_spec(2, d);
    let se = rotate_c_spec(2, d);
    let w_open = open(x + step_x(w), y + step_y(w));
    let s_open = open(x + step_x(s), y + step_y(s));
    if !w_open && s_open {
        open(x + step_x(n), y + step_y(n)) && open(x + step_x(nw), y + step_y(nw))
    } else if w_open && !s_open {
        open(x + step_x(e), y + step_y(e)) && open(x + step_x(se), y + step_y(se))
    } else {
        false
    }
}

/// The diagonal search from `(x, y)` in direction `ne` over the open tiles
/// `open` and jump distances `jumps`: it stops with nothing at a closed tile
/// or where both tiles beside the diagonal are closed, and answers the
/// first tile that keeps a jump distance along either side, is a diagonal
/// jump point, or lines up with `goal`.
#[verifier::opaque]
pub open spec fn diag_walk(
    open: spec_fn(int, int) -> bool,
    jumps: spec_fn(int, int) -> Jumps,
    x: int,
    y: int,
    goal: (int, int),
    ne: int,
    fuel: nat,
) -> Option<(isize, isize)>
    decreases fuel,
{
    let n = rotate_cc_spec(1, ne);
    let e = rotate_c_spec(1, ne);
    if !open(x, y) || (!open(x + step_x(n), y + step_y(n)) && !open(x + step_x(e), y + step_y(e))) {
        None
    } else if dist_in(jumps(x, y), n) > 0 || dist_in(jumps(x, y), e) > 0 || diag_jump_of(open, ne, x, y)
        || lines_up_with(open, x, y, goal.0, goal.1) {
        Some((x as isize, y as isize))
    } else if fuel == 0 {
        None
    } else {
        diag_walk(open, jumps, x + step_x(ne), y + step_y(ne), goal, ne, (fuel - 1) as nat)
    }
}

/// A diagonal search over tiles that lie in a 16-bit grid stops, if it
/// stops on a tile, on an open one.
proof fn lemma_walk_stops_open(
    open: spec_fn(int, int) -> bool,
    jumps: spec_fn(int, int) -> Jumps,
    x: int,
    y: int,
    goal: (int, int),
    ne: int,
    fuel: nat,
)
    requires
        forall|a: int, b: int| #[trigger] open(a, b) ==> 0 <= a < 65536 && 0 <= b < 65536,
    ensures
        diag_walk(open, jumps, x, y, goal, ne, fuel) matches Some(q) ==> open(q.0 as int, q.1 as int),
    decreases fuel,
{
    reveal(diag_walk);
    if fuel > 0 {
        lemma_walk_stops_open(open, jumps, x + step_x(ne), y + step_y(ne), goal, ne, (fuel - 1) as nat);
    }
    if open(x, y) {
        assert(0 <= x < 65536 && 0 <= y < 65536);
        assert((x as isize) as int == x);
        assert((y as isize) as int == y);
    }
}

/// Whether a diagonal search heading `ne` may stand on `(a, b)`: the tile is
/// open and so is at least one of the two tiles beside the diagonal step,
/// `(a + dx, b)` and `(a, b + dy)`.
pub open spec fn diag_passable(open: spec_fn(int, int) -> bool, ne: int, a: int, b: int) -> bool {
    open(a, b) && (open(a + step_x(ne), b) || open(a, b + step_y(ne)))
}

/// Whether a diagonal search heading `ne` stops at `(a, b)`: the tile keeps
/// a jump distance along one of the two axes of the diagonal, is a
/// diagonal jump point, or has a straight open line to the goal.
pub open spec fn diag_stops(
    open: spec_fn(int, int) -> bool,
    jumps: spec_fn(int, int) -> Jumps,
    ne: int,
    a: int,
    b: int,
    goal: (int, int),
) -> bool {
    dist_in(jumps(a, b), (ne + 7) % 8) > 0 || dist_in(jumps(a, b), (ne + 1) % 8) > 0 || diag_jump_of(open, ne, a, b)
        || lines_up_with(open, a, b, goal.0, goal.1)
}

/// A diagonal search from `(x, y)` heading `ne`, with `fuel` more steps,
/// stops on the first tile of the diagonal (counting `(x, y)` as the 0th)
/// that it may stand on and that stops it, provided it may stand on every
/// tile before it; it finds nothing when it reaches a tile it may not stand
/// on first, or runs out of steps.
pub proof fn lemma_diag_walk_stop(
    open: spec_fn(int, int) -> bool,
    jumps: spec_fn(int, int) -> Jumps,
    x: int,
    y: int,
    goal: (int, int),
    ne: int,
    fuel: nat,
)
    requires
        ne == 1 || ne == 3 || ne == 5 || ne == 7,
    ensures
        diag_walk(open, jumps, x, y, goal, ne, fuel) matches Some(q) ==> exists|i: int|
            0 <= i <= fuel && q == ((#[trigger] steps(ne, x, y, i)).0 as isize, steps(ne, x, y, i).1 as isize)
                && diag_passable(open, ne, steps(ne, x, y, i).0, steps(ne, x, y, i).1) && diag_stops(
                open,
                jumps,
                ne,
                steps(ne, x, y, i).0,
                steps(ne, x, y, i).1,
                goal,
            ) && forall|j: int|
                0 <= j < i ==> diag_passable(open, ne, #[trigger] steps(ne, x, y, j).0, steps(ne, x, y, j).1)
                    && !diag_stops(open, jumps, ne, steps(ne, x, y, j).0, steps(ne, x, y, j).1, goal),
        diag_walk(open, jumps, x, y, goal, ne, fuel) is None ==> forall|i: int|
            0 <= i <= fuel && (forall|j: int|
                0 <= j < i ==> diag_passable(open, ne, #[trigger] steps(ne, x, y, j).0, steps(ne, x, y, j).1)
                    && !diag_stops(open, jumps, ne, steps(ne, x, y, j).0, steps(ne, x, y, j).1, goal))
                ==> !(diag_passable(open, ne, #[trigger] steps(ne, x, y, i).0, steps(ne, x, y, i).1) && diag_stops(
                open,
                jumps,
                ne,
                steps(ne, x, y, i).0,
                steps(ne, x, y, i).1,
                goal,
            )),
    decreases fuel,
{
    reveal(diag_walk);
    assert(steps(ne, x, y, 0) == (x, y));
    let nx = x + step_x(ne);
    let ny = y + step_y(ne);
    assert(steps(ne, x, y, 1) == (nx, ny));
    let here_pass = diag_passable(open, ne, x, y);
    let here_stop = diag_stops(open, jumps, ne, x, y, goal);
    assert(open(x + step_x(rotate_cc_spec(1, ne)), y + step_y(rotate_cc_spec(1, ne))) || open(
        x + step_x(rotate_c_spec(1, ne)),
        y + step_y(rotate_c_spec(1, ne)),
    ) <==> (open(x + step_x(ne), y) || open(x, y + step_y(ne))));
    assert(rotate_cc_spec(1, ne) == (ne + 7) % 8 && rotate_c_spec(1, ne) == (ne + 1) % 8);
    if !here_pass || (!here_stop && fuel == 0) {
        assert(diag_walk(open, jumps, x, y, goal, ne, fuel) is None);
        assert forall|i: int|
            0 <= i <= fuel && (forall|j: int|
                0 <= j < i ==> diag_passable(open, ne, #[trigger] steps(ne, x, y, j).0, steps(ne, x, y, j).1)
                    && !diag_stops(open, jumps, ne, steps(ne, x, y, j).0, steps(ne, x, y, j).1, goal))
                implies !(diag_passable(open, ne, #[trigger] steps(ne, x, y, i).0, steps(ne, x, y, i).1)
            && diag_stops(open, jumps, ne, steps(ne, x, y, i).0, steps(ne, x, y, i).1, goal)) by {
            assert(steps(ne, x, y, 0) == (x, y));
            if i > 0 {
                assert(diag_passable(open, ne, steps(ne, x, y, 0).0, steps(ne, x, y, 0).1));
                assert(!diag_stops(open, jumps, ne, steps(ne, x, y, 0).0, steps(ne, x, y, 0).1, goal));
                assert(here_pass && !here_stop);
                assert(false);
            } else {
                assert(steps(ne, x, y, i) == (x, y));
            }
        }
    } else if here_stop {
        assert(diag_walk(open, jumps, x, y, goal, ne, fuel) == Some((x as isize, y as isize)));
    } else {
        let f1 = (fuel - 1) as nat;
        assert(diag_walk(open, jumps, x, y, goal, ne, fuel) == diag_walk(open, jumps, nx, ny, goal, ne, f1));
        lemma_diag_walk_stop(open, jumps, nx, ny, goal, ne, f1);
        assert forall|j: int| #[trigger] steps(ne, nx, ny, j) == steps(ne, x, y, j + 1) by {
            lemma_steps_add(ne, x, y, 1, j);
        }
        match diag_walk(open, jumps, nx, ny, goal, ne, f1) {
            Some(q) => {
                let i2 = choose|i: int|
                    0 <= i <= f1 && q == ((#[trigger] steps(ne, nx, ny, i)).0 as isize, steps(ne, nx, ny, i).1 as isize)
                        && diag_passable(open, ne, steps(ne, nx, ny, i).0, steps(ne, nx, ny, i).1) && diag_stops(
                        open,
                        jumps,
                        ne,
                        steps(ne, nx, ny, i).0,
                        steps(ne, nx, ny, i).1,
                        goal,
                    ) && forall|j: int|
                        0 <= j < i ==> diag_passable(open, ne, #[trigger] steps(ne, nx, ny, j).0, steps(ne, nx, ny, j).1)
                            && !diag_stops(open, jumps, ne, steps(ne, nx, ny, j).0, steps(ne, nx, ny, j).1, goal);
                let i = i2 + 1;
                assert(steps(ne, nx, ny, i2) == steps(ne, x, y, i));
                assert forall|j: int| 0 <= j < i implies diag_passable(open, ne, #[trigger] steps(ne, x, y, j).0, steps(ne, x, y, j).1)
                    && !diag_stops(open, jumps, ne, steps(ne, x, y, j).0, steps(ne, x, y, j).1, goal) by {
                    if j > 0 {
                        assert(steps(ne, nx, ny, j - 1) == steps(ne, x, y, j));
                    }
                }
            },
            None => {
                assert forall|i: int|
                    0 <= i <= fuel && (forall|j: int|
                        0 <= j < i ==> diag_passable(open, ne, #[trigger] steps(ne, x, y, j).0, steps(ne, x, y, j).1)
                            && !diag_stops(open, jumps, ne, steps(ne, x, y, j).0, steps(ne, x, y, j).1, goal))
                        implies !(diag_passable(open, ne, #[trigger] steps(ne, x, y, i).0, steps(ne, x, y, i).1)
                    && diag_stops(open, jumps, ne, steps(ne, x, y, i).0, steps(ne, x, y, i).1, goal)) by {
                    if i > 0 {
                        let i2 = i - 1;
                        assert(steps(ne, nx, ny, i2) == steps(ne, x, y, i));
                        assert forall|j: int| 0 <= j < i2 implies diag_passable(open, ne, #[trigger] steps(ne, nx, ny, j).0, steps(ne, nx, ny, j).1)
                            && !diag_stops(open, jumps, ne, steps(ne, nx, ny, j).0, steps(ne, nx, ny, j).1, goal) by {
                            assert(steps(ne, nx, ny, j) == steps(ne, x, y, j + 1));
                        }
                    }
                }
            },
        }
    }
}

/// What `a + b` holds is what `a` or `b` holds.
proof fn lemma_seq_concat_contains<A>(a: Seq<A>, b: Seq<A>, x: A)
    ensures
        (a + b).contains(x) <==> (a.contains(x) || b.contains(x)),
{
    if (a + b).contains(x) {
        let i = choose|i: int| 0 <= i < (a + b).len() && (a + b)[i] == x;
        if i < a.len() {
            assert(a[i] == x);
        } else {
            assert(b[i - a.len()] == x);
        }
    }
    if a.contains(x) {
        let i = choose|i: int| 0 <= i < a.len() && a[i] == x;
        assert((a + b)[i] == x);
    }
    if b.contains(x) {
        let i = choose|i: int| 0 <= i < b.len() && b[i] == x;
        assert((a + b)[a.len() + i] == x);
    }
}

/// A candidate of the search for the nearest open tile: its squared
/// distance from the start, the tile, and the direction it was reached in.
pub type NearNode = (u64, (isize, isize), Direction);

/// The squared distance from `s` to `(x, y)`.
pub open spec fn sq_dist(s: (isize, isize), x: int, y: int) -> int {
    (x - s.0) * (x - s.0) + (y - s.1) * (y - s.1)
}

/// Whether a search from `s` standing on `p` and heading in direction `d`
/// still has `(x, y)` before it: on the ray from `p` for a straight
/// direction, in the quarter plane ahead of `p` for a diagonal one, with
/// `p` itself beyond `s` in that direction.
pub open spec fn faces_to(s: (isize, isize), p: (isize, isize), d: int, x: int, y: int) -> bool {
    &&& is_compass(d)
    &&& (step_x(d) > 0 ==> s.0 < p.0 <= x)
    &&& (step_x(d) < 0 ==> x <= p.0 < s.0)
    &&& (step_x(d) == 0 ==> x == p.0)
    &&& (step_y(d) > 0 ==> s.1 < p.1 <= y)
    &&& (step_y(d) < 0 ==> y <= p.1 < s.1)
    &&& (step_y(d) == 0 ==> y == p.1)
}

/// Whether candidate `n` of a search from `s` is keyed by its squared
/// distance and has `(x, y)` before it.
pub open spec fn leads_to(s: (isize, isize), n: NearNode, x: int, y: int) -> bool {
    &&& n.0 == sq_dist(s, n.1.0 as int, n.1.1 as int)
    &&& faces_to(s, n.1, n.2.0 as int, x, y)
}

/// Whether some candidate of `q` leads to `(x, y)`.
pub open spec fn covered(s: (isize, isize), q: Seq<NearNode>, x: int, y: int) -> bool {
    exists|k: int| 0 <= k < q.len() && #[trigger] leads_to(s, q[k], x, y)
}

/// The direction from `s` toward `(x, y)`: straight along a shared row or
/// column, else diagonal into the quarter plane of `(x, y)`.
pub open spec fn dir_from(s: (isize, isize), x: int, y: int) -> int {
    if x == s.0 {
        if y > s.1 { 0 } else { 4 }
    } else if y == s.1 {
        if x > s.0 { 2 } else { 6 }
    } else if x > s.0 {
        if y > s.1 { 1 } else { 3 }
    } else {
        if y > s.1 { 7 } else { 5 }
    }
}

/// The place of direction `d` in the order the first candidates are
/// pushed: the four straight ones, then north-east, north-west, south-east
/// and south-west.
pub open spec fn first_rank(d: int) -> int {
    if d == 0 {
        0
    } else if d == 2 {
        1
    } else if d == 4 {
        2
    } else if d == 6 {
        3
    } else if d == 1 {
        4
    } else if d == 7 {
        5
    } else if d == 3 {
        6
    } else {
        7
    }
}

proof fn lemma_sq_le(a: int, b: int)
    requires
        (0 <= a <= b) || (b <= a <= 0),
    ensures
        a * a <= b * b,
{
    assert(a * a <= b * b) by (nonlinear_arith)
        requires
            (0 <= a <= b) || (b <= a <= 0),
    ;
}

/// A candidate is no farther from the start than any tile it leads to.
proof fn lemma_led_near(s: (isize, isize), n: NearNode, x: int, y: int)
    requires
        leads_to(s, n, x, y),
    ensures
        n.0 <= sq_dist(s, x, y),
{
    lemma_sq_le(n.1.0 - s.0, x - s.0);
    lemma_sq_le(n.1.1 - s.1, y - s.1);
}

/// Appending candidates keeps what `q` covers.
proof fn lemma_covered_extend(s: (isize, isize), q: Seq<NearNode>, r: Seq<NearNode>, x: int, y: int)
    requires
        covered(s, q, x, y),
        q.len() <= r.len(),
        forall|j: int| 0 <= j < q.len() ==> r[j] == q[j],
    ensures
        covered(s, r, x, y),
{
    let k = choose|k: int| 0 <= k < q.len() && #[trigger] leads_to(s, q[k], x, y);
    assert(leads_to(s, r[k], x, y));
}

/// Taking out a candidate that does not lead to `(x, y)` keeps it covered.
proof fn lemma_covered_remove(s: (isize, isize), q: Seq<NearNode>, i: int, x: int, y: int)
    requires
        covered(s, q, x, y),
        0 <= i < q.len(),
        !leads_to(s, q[i], x, y),
    ensures
        covered(s, q.remove(i), x, y),
{
    let k = choose|k: int| 0 <= k < q.len() && #[trigger] leads_to(s, q[k], x, y);
    if k < i {
        assert(q.remove(i)[k] == q[k]);
        assert(leads_to(s, q.remove(i)[k], x, y));
    } else {
        assert(q.remove(i)[k - 1] == q[k]);
        assert(leads_to(s, q.remove(i)[k - 1], x, y));
    }
}

/// Takes out the candidate with the smallest distance (the first such).
fn pop_nearest(q: &mut Vec<NearNode>) -> (r: NearNode)
    requires
        old(q)@.len() > 0,
    ensures
        exists|i: int|
            0 <= i < old(q)@.len() && r == old(q)@[i] && final(q)@ == old(q)@.remove(i),
        forall|j: int| 0 <= j < old(q)@.len() ==> r.0 <= #[trigger] old(q)@[j].0,
{
    let mut best: usize = 0;
    let mut k: usize = 1;
    while k < q.len()
        invariant
            q@ == old(q)@,
            q@.len() > 0,
            best < q@.len(),
            1 <= k <= q@.len(),
            forall|j: int| 0 <= j < k ==> q@[best as int].0 <= #[trigger] q@[j].0,
        decreases q@.len() - k,
    {
        if q[k].0 < q[best].0 {
            best = k;
        }
        k = k + 1;
    }
    q.remove(best)
}

/// A grid of tiles for path finding, with the jump distances of jump point
/// search, and a closed list reused between searches.
pub struct PathGrid {
    w: isize,
    h: isize,
    counter: usize,
    states: PackedBits,
    jumps: Vec<Jumps>,
    closed: Vec<usize>,
    expand: Vec<((isize, isize), Direction)>,
}

impl PathGrid {
    /// A well-formed grid has sides of at most 65535 tiles.
    pub proof fn lemma_size(&self)
        requires
            self.wf(),
        ensures
            0 <= self.width() <= 65535,
            0 <= self.height() <= 65535,
            self.width() * self.height() <= isize::MAX,
    {
    }

    /// The width.
    pub closed spec fn width(&self) -> int {
        self.w as int
    }

    /// The height.
    pub closed spec fn height(&self) -> int {
        self.h as int
    }

    /// Whether `(x, y)` lies inside the grid.
    pub open spec fn inside(&self, x: int, y: int) -> bool {
        0 <= x < self.width() && 0 <= y < self.height()
    }

    /// Whether tile `(x, y)` is open, for a tile inside the grid.
    pub closed spec fn state(&self, x: int, y: int) -> bool {
        packed_bits(self.states)[cell_index(self.w as int, x, y)]
    }

    /// Whether `(x, y)` lies inside the grid and is open.
    pub open spec fn open_at(&self, x: int, y: int) -> bool {
        self.inside(x, y) && self.state(x, y)
    }

    /// The open tiles, as a predicate on positions.
    pub open spec fn open_fn(&self) -> spec_fn(int, int) -> bool {
        |x: int, y: int| self.open_at(x, y)
    }

    /// The jump distances of tile `(x, y)`.
    pub closed spec fn jumps_at(&self, x: int, y: int) -> Jumps {
        self.jumps@[cell_index(self.w as int, x, y)]
    }

    /// The search round that marks tile `(x, y)` as closed.
    pub closed spec fn closed_mark(&self, x: int, y: int) -> usize {
        self.closed@[cell_index(self.w as int, x, y)]
    }

    /// The number of the current search round.
    pub closed spec fn round(&self) -> usize {
        self.counter
    }

    /// Everything but the expansion list is as in `other`.
    pub closed spec fn same_grid(&self, other: PathGrid) -> bool {
        &&& self.w == other.w
        &&& self.h == other.h
        &&& self.counter == other.counter
        &&& self.states == other.states
        &&& self.jumps == other.jumps
        &&& self.closed == other.closed
    }

    /// The tiles and directions the last expansion found.
    pub closed spec fn expanded(&self) -> Seq<((isize, isize), Direction)> {
        self.expand@
    }

    /// Every distance a tile keeps leads to a tile inside the grid.
    pub open spec fn jumps_inside(&self, x: int, y: int) -> bool {
        let j = self.jumps_at(x, y);
        &&& y + j.nj < self.height()
        &&& x + j.ej < self.width()
        &&& y - j.sj >= 0
        &&& x - j.wj >= 0
    }

    /// The vectors cover the grid, the sides fit the 16-bit distances, and
    /// every kept distance stays inside the grid.
    pub closed spec fn wf(&self) -> bool {
        &&& 0 <= self.w <= 65535
        &&& 0 <= self.h <= 65535
        &&& self.w * self.h <= isize::MAX
        &&& packed_bits(self.states).len() == self.w * self.h
        &&& self.jumps@.len() == self.w * self.h
        &&& self.closed@.len() == self.w * self.h
        &&& forall|x: int, y: int| #![trigger self.jumps_at(x, y)] self.inside(x, y) ==> self.jumps_inside(x, y)
    }

    /// Whether `(x, y)` is a jump point for a search heading in axis
    /// direction `d`: it and the tiles ahead and behind are open, and a wall
    /// beside it ends right before an open diagonal tile ahead.
    pub open spec fn axis_jump_spec(&self, d: int, x: int, y: int) -> bool {
        axis_jump_of(self.open_fn(), d, x, y)
    }

    /// Whether tile `(x, y)` keeps, in axis direction `d`, the distance to
    /// the first jump point ahead (see `ahead_is`).
    pub open spec fn settled(&self, d: int, x: int, y: int) -> bool {
        self.open_at(x, y) && ahead_is(self.open_fn(), d, x, y, dist_in(self.jumps_at(x, y), d))
    }

    /// The jump distances agree with the tiles: every open tile keeps, in
    /// each axis direction, the distance to the first jump point ahead, and
    /// every closed tile keeps none.
    pub open spec fn jumps_ok(&self) -> bool {
        forall|x: int, y: int, d: int|
            #![trigger dist_in(self.jumps_at(x, y), d)]
            self.inside(x, y) && is_axis_dir(d) ==> if self.open_at(x, y) {
                self.settled(d, x, y)
            } else {
                dist_in(self.jumps_at(x, y), d) == 0
            }
    }

    /// `b` has the tiles of this grid, and each of its jump distances is
    /// this grid's or settled.
    pub open spec fn refined_by(&self, b: PathGrid) -> bool {
        &&& b.width() == self.width()
        &&& b.height() == self.height()
        &&& b.open_fn() == self.open_fn()
        &&& forall|x: int, y: int, d: int|
            #![trigger dist_in(b.jumps_at(x, y), d)]
            self.inside(x, y) && is_axis_dir(d) ==> dist_in(b.jumps_at(x, y), d) == dist_in(
                self.jumps_at(x, y),
                d,
            ) || b.settled(d, x, y)
    }

    /// Whether `(x, y)` is a jump point for a search heading in diagonal
    /// direction `d`.
    pub open spec fn diag_jump_spec(&self, d: int, x: int, y: int) -> bool {
        diag_jump_of(self.open_fn(), d, x, y)
    }

    /// The jump distances, as a function of positions.
    pub open spec fn jumps_fn(&self) -> spec_fn(int, int) -> Jumps {
        |x: int, y: int| self.jumps_at(x, y)
    }

    /// The search from `p` in diagonal direction `d`, with enough fuel.
    pub open spec fn search_from(&self, p: (isize, isize), goal: (isize, isize), d: int) -> Option<(isize, isize)> {
        diag_walk(
            self.open_fn(),
            self.jumps_fn(),
            p.0 as int,
            p.1 as int,
            (goal.0 as int, goal.1 as int),
            d,
            steps_out(d, p.0 as int, p.1 as int, self.width(), self.height()) as nat,
        )
    }

    /// What the search from `p` in direction `d` adds to an expansion.
    pub open spec fn found(&self, p: (isize, isize), goal: (isize, isize), d: int) -> Seq<((isize, isize), Direction)> {
        match self.search_from(p, goal, d) {
            Some(q) => seq![(q, Direction(d as isize))],
            None => seq![],
        }
    }

    /// The jump point `p` keeps in axis direction `d`, as an expansion entry.
    pub open spec fn jump_entry(&self, p: (isize, isize), d: int) -> Seq<((isize, isize), Direction)> {
        let k = dist_in((self.jumps_fn())(p.0 as int, p.1 as int), d);
        let f = steps(d, p.0 as int, p.1 as int, k);
        if k > 0 {
            seq![((f.0 as isize, f.1 as isize), Direction(d as isize))]
        } else {
            seq![]
        }
    }

    /// The tile next to `p` in direction `d`.
    pub open spec fn next_of(&self, p: (isize, isize), d: int) -> (isize, isize) {
        ((p.0 + step_x(d)) as isize, (p.1 + step_y(d)) as isize)
    }

    /// Whether the tile next to `p` in direction `d` is open.
    pub open spec fn open_next(&self, p: (isize, isize), d: int) -> bool {
        (self.open_fn())(p.0 + step_x(d), p.1 + step_y(d))
    }

    /// What expanding a node at `xy` heading in axis direction `n` finds:
    /// with the tile ahead open, the jump point ahead, and each diagonal
    /// ahead that is open where the side tile next to it is closed.
    pub open spec fn expand_axis_spec(&self, xy: (isize, isize), n: int) -> Seq<((isize, isize), Direction)> {
        let e = rotate_c_spec(2, n);
        let w = rotate_cc_spec(2, n);
        let nw = rotate_cc_spec(1, n);
        let ne = rotate_c_spec(1, n);
        if self.open_next(xy, n) {
            self.jump_entry(xy, n) + (if self.open_next(xy, nw) && !self.open_next(xy, w) {
                seq![(self.next_of(xy, nw), Direction(nw as isize))]
            } else {
                seq![]
            }) + (if self.open_next(xy, ne) && !self.open_next(xy, e) {
                seq![(self.next_of(xy, ne), Direction(ne as isize))]
            } else {
                seq![]
            })
        } else {
            seq![]
        }
    }

    /// What expanding a node at `xy` heading in diagonal direction `ne`
    /// finds: a turn around a wall on either side, the jump points kept
    /// along both sides, and the next stop of the diagonal itself.
    pub open spec fn expand_diag_spec(&self, xy: (isize, isize), goal: (isize, isize), ne: int) -> Seq<((isize, isize), Direction)> {
        self.turn_spec(xy, goal, ne) + self.jump_entry(xy, rotate_cc_spec(1, ne)) + self.jump_entry(
            xy,
            rotate_c_spec(1, ne),
        ) + self.found(self.next_of(xy, ne), goal, ne)
    }

    /// The turn around a wall that expanding a diagonal node finds: a
    /// search along the side diagonal next to a wall, if any.
    pub open spec fn turn_spec(&self, xy: (isize, isize), goal: (isize, isize), ne: int) -> Seq<((isize, isize), Direction)> {
        let n = rotate_cc_spec(1, ne);
        let e = rotate_c_spec(1, ne);
        let w = rotate_cc_spec(3, ne);
        let s = rotate_c_spec(3, ne);
        let nw = rotate_cc_spec(2, ne);
        let se = rotate_c_spec(2, ne);
        if !self.open_next(xy, w) && self.open_next(xy, n) && self.open_next(xy, nw) {
            self.found(self.next_of(xy, nw), goal, nw)
        } else if !self.open_next(xy, s) && self.open_next(xy, e) && self.open_next(xy, se) {
            self.found(self.next_of(xy, se), goal, se)
        } else {
            seq![]
        }
    }

    /// What starting a search at `xy` finds in diagonal direction `d`: from
    /// the tile next to `xy` that way, the next stop of the diagonal, when
    /// one of the two tiles beside that first step is open.
    #[verifier::opaque]
    pub open spec fn init_diag_spec(&self, xy: (isize, isize), goal: (isize, isize), d: int) -> Seq<((isize, isize), Direction)> {
        let p = self.next_of(xy, d);
        if self.open_next(p, rotate_cc_spec(3, d)) || self.open_next(p, rotate_c_spec(3, d)) {
            self.found(p, goal, d)
        } else {
            seq![]
        }
    }

    /// What starting a search at `xy` finds: the stops of the four
    /// diagonals, north-east, south-east, south-west and north-west, then the
    /// jump points `xy` keeps north, east, south and west.
    #[verifier::opaque]
    pub open spec fn init_spec(&self, xy: (isize, isize), goal: (isize, isize)) -> Seq<((isize, isize), Direction)> {
        self.init_diag_spec(xy, goal, 1) + self.init_diag_spec(xy, goal, 3) + self.init_diag_spec(
            xy,
            goal,
            5,
        ) + self.init_diag_spec(xy, goal, 7) + self.jump_entry(xy, 0) + self.jump_entry(xy, 2)
            + self.jump_entry(xy, 4) + self.jump_entry(xy, 6)
    }

    /// What a candidate can still cost the search: a diagonal one five for
    /// each step left to the edge of the grid, a straight one two, or one
    /// once it is open.
    pub open spec fn near_weight(&self, n: NearNode) -> int {
        let d = n.2.0 as int;
        if is_axis_dir(d) {
            if self.open_at(n.1.0 as int, n.1.1 as int) {
                1
            } else {
                2
            }
        } else {
            5 * steps_out(d, n.1.0 as int, n.1.1 as int, self.width(), self.height())
        }
    }

    /// What the candidates `q` can still cost the search.
    pub open spec fn near_total(&self, q: Seq<NearNode>) -> int
        decreases q.len(),
    {
        if q.len() == 0 {
            0
        } else {
            self.near_total(q.drop_last()) + self.near_weight(q.last())
        }
    }

    /// A candidate lies inside the grid and was reached in a compass
    /// direction.
    pub open spec fn near_ok(&self, n: NearNode) -> bool {
        &&& self.inside(n.1.0 as int, n.1.1 as int)
        &&& is_compass(n.2.0 as int)
    }

    /// Whether `s` lies inside the grid or in the ring of tiles around it.
    pub open spec fn near_grid(&self, s: (isize, isize)) -> bool {
        -1 <= s.0 <= self.width() && -1 <= s.1 <= self.height()
    }

    /// A search from near the grid that stands before a tile of the grid
    /// stands inside it.
    proof fn lemma_faces_inside(&self, s: (isize, isize), p: (isize, isize), d: int, x: int, y: int)
        requires
            self.near_grid(s),
            self.inside(x, y),
            faces_to(s, p, d, x, y),
        ensures
            self.inside(p.0 as int, p.1 as int),
    {
    }

    proof fn lemma_near_push(&self, q: Seq<NearNode>, n: NearNode)
        ensures
            self.near_total(q.push(n)) == self.near_total(q) + self.near_weight(n),
    {
        assert(q.push(n).drop_last() == q);
    }

    proof fn lemma_near_remove(&self, q: Seq<NearNode>, i: int)
        requires
            0 <= i < q.len(),
        ensures
            self.near_total(q.remove(i)) == self.near_total(q) - self.near_weight(q[i]),
        decreases q.len(),
    {
        if i == q.len() - 1 {
            assert(q.remove(i) == q.drop_last());
        } else {
            self.lemma_near_remove(q.drop_last(), i);
            assert(q.remove(i).drop_last() == q.drop_last().remove(i));
            assert(q.remove(i).last() == q.last());
        }
    }

    proof fn lemma_near_nonneg(&self, q: Seq<NearNode>)
        requires
            forall|k: int| 0 <= k < q.len() ==> self.near_ok(#[trigger] q[k]),
        ensures
            self.near_total(q) >= 0,
        decreases q.len(),
    {
        if q.len() > 0 {
            self.lemma_near_nonneg(q.drop_last());
            assert(self.near_ok(q[q.len() - 1]));
        }
    }


    /// A grid of `w` by `h` open tiles, with no jump distances and an empty
    /// closed list.
    pub fn new(w: usize, h: usize) -> (g: PathGrid)
        requires
            w <= 65535,
            h <= 65535,
            w * h <= isize::MAX,
        ensures
            g.wf(),
            g.width() == w,
            g.height() == h,
            g.round() == 1,
            forall|x: int, y: int|
                #[trigger] g.inside(x, y) ==> g.state(x, y) && g.jumps_at(x, y) == (Jumps {
                    nj: 0,
                    ej: 0,
                    sj: 0,
                    wj: 0,
                }) && g.closed_mark(x, y) == 0,
            g.jumps_ok(),
    {
        let wth = w * h;
        let mut states = bits_with_capacity(wth);
        let mut jumps: Vec<Jumps> = Vec::with_capacity(wth);
        let mut closed: Vec<usize> = Vec::with_capacity(wth);
        let mut k: usize = 0;
        while k < wth
            invariant
                k <= wth,
                wth == w * h,
                wth <= isize::MAX,
                packed_bits(states).len() == k,
                jumps@.len() == k,
                closed@.len() == k,
                forall|i: int| 0 <= i < k ==> #[trigger] packed_bits(states)[i],
                forall|i: int|
                    0 <= i < k ==> #[trigger] jumps@[i] == (Jumps { nj: 0, ej: 0, sj: 0, wj: 0 }),
                forall|i: int| 0 <= i < k ==> #[trigger] closed@[i] == 0,
            decreases wth - k,
        {
            bits_push(&mut states, true);
            jumps.push(Jumps { nj: 0, ej: 0, sj: 0, wj: 0 });
            closed.push(0);
            k = k + 1;
        }
        let g = PathGrid {
            w: w as isize,
            h: h as isize,
            counter: 1,
            states,
            jumps,
            closed,
            expand: Vec::new(),
        };
        proof {
            assert forall|x: int, y: int| #[trigger] g.inside(x, y) implies g.state(x, y) && g.jumps_at(
                x,
                y,
            ) == (Jumps { nj: 0, ej: 0, sj: 0, wj: 0 }) && g.closed_mark(x, y) == 0 by {
                lemma_cell_index(w as int, h as int, x, y, x, y);
            }
            assert forall|x: int, y: int, d: int|
                g.inside(x, y) && is_axis_dir(d) implies if g.open_at(x, y) {
                g.settled(d, x, y)
            } else {
                #[trigger] dist_in(g.jumps_at(x, y), d) == 0
            } by {
                assert(g.inside(x, y));
                Self::lemma_open_grid_runs_out(g, d, x, y);
            }
        }
        g
    }

    /// In a grid with every tile open, no tile is a jump point, and the walk
    /// from any tile runs off the grid.
    proof fn lemma_open_grid_runs_out(g: PathGrid, d: int, x: int, y: int)
        requires
            forall|i: int, j: int| #[trigger] g.inside(i, j) ==> g.state(i, j),
            g.inside(x, y),
            is_axis_dir(d),
        ensures
            ahead_is(g.open_fn(), d, x, y, 0),
    {
        let m = if d == 0 {
            g.height() - y
        } else if d == 2 {
            g.width() - x
        } else if d == 4 {
            y + 1
        } else {
            x + 1
        };
        assert forall|i: int| 1 <= i < m implies #[trigger] step_open(g.open_fn(), d, x, y, i) && !step_jump(
            g.open_fn(),
            d,
            d,
            x,
            y,
            i,
        ) by {
            let p = steps(d, x, y, i);
            assert(g.inside(p.0, p.1));
            assert(g.state(p.0, p.1));
            assert(g.inside(p.0 + 1, p.1) ==> g.state(p.0 + 1, p.1));
            assert(g.inside(p.0 - 1, p.1) ==> g.state(p.0 - 1, p.1));
            assert(g.inside(p.0, p.1 + 1) ==> g.state(p.0, p.1 + 1));
            assert(g.inside(p.0, p.1 - 1) ==> g.state(p.0, p.1 - 1));
            assert(g.inside(p.0 + 1, p.1 + 1) ==> g.state(p.0 + 1, p.1 + 1));
            assert(g.inside(p.0 - 1, p.1 + 1) ==> g.state(p.0 - 1, p.1 + 1));
            assert(g.inside(p.0 + 1, p.1 - 1) ==> g.state(p.0 + 1, p.1 - 1));
            assert(g.inside(p.0 - 1, p.1 - 1) ==> g.state(p.0 - 1, p.1 - 1));
        }
        assert(clear_walk(g.open_fn(), d, d, x, y, m));
        assert(!step_open(g.open_fn(), d, x, y, m));
    }

    /// The width and the height.
    pub fn width_and_height(&self) -> (r: (isize, isize))
        ensures
            r.0 == self.width() && r.1 == self.height(),
    {
        (self.w, self.h)
    }

    /// Whether `p` lies inside the grid and is open.
    pub fn is_open(&self, p: (isize, isize)) -> (r: bool)
        requires
            self.wf(),
        ensures
            r == self.open_at(p.0 as int, p.1 as int),
    {
        let (x, y) = p;
        if (x >= 0) && (y >= 0) && (x < self.w) && (y < self.h) {
            proof {
                lemma_cell_index(self.w as int, self.h as int, x as int, y as int, x as int, y as int);
            }
            bits_index(&self.states, (y * self.w + x) as usize)
        } else {
            false
        }
    }

    /// Whether `p` lies inside the grid.
    pub fn inside_bounds(&self, p: (isize, isize)) -> (r: bool)
        ensures
            r == self.inside(p.0 as int, p.1 as int),
    {
        let (x, y) = p;
        (x >= 0) && (y >= 0) && (x < self.w) && (y < self.h)
    }

    /// Whether `p` lies inside the grid and is closed.
    pub fn is_closed_and_inside_bounds(&self, p: (isize, isize)) -> (r: bool)
        requires
            self.wf(),
        ensures
            r == (self.inside(p.0 as int, p.1 as int) && !self.state(p.0 as int, p.1 as int)),
    {
        let (x, y) = p;
        if (x >= 0) && (y >= 0) && (x < self.w) && (y < self.h) {
            proof {
                lemma_cell_index(self.w as int, self.h as int, x as int, y as int, x as int, y as int);
            }
            !bits_index(&self.states, (y * self.w + x) as usize)
        } else {
            false
        }
    }
    /// A grid that differs only in its expansion list is well formed alike
    /// and has the same tiles.
    proof fn lemma_same_grid(a: PathGrid, b: PathGrid)
        requires
            a.wf(),
            b.same_grid(a),
        ensures
            b.wf(),
            b.width() == a.width(),
            b.height() == a.height(),
            b.open_fn() == a.open_fn(),
            b.jumps_fn() == a.jumps_fn(),
            forall|x: int, y: int| #[trigger] b.state(x, y) == a.state(x, y),
            forall|x: int, y: int| #[trigger] b.jumps_at(x, y) == a.jumps_at(x, y),
            forall|x: int, y: int| #[trigger] b.open_at(x, y) == a.open_at(x, y),
    {
        assert forall|x: int, y: int| b.inside(x, y) implies #[trigger] b.jumps_inside(x, y) by {
            assert(a.jumps_inside(x, y));
        }
        assert(b.open_fn() == a.open_fn());
        assert(b.jumps_fn() == a.jumps_fn());
    }

    /// Expansions read only the tiles and the jump distances.
    #[verifier::rlimit(40)]
    proof fn lemma_same_expansion(a: PathGrid, b: PathGrid, xy: (isize, isize), goal: (isize, isize), d: int)
        requires
            a.wf(),
            b.same_grid(a),
        ensures
            b.expand_axis_spec(xy, d) == a.expand_axis_spec(xy, d),
            b.expand_diag_spec(xy, goal, d) == a.expand_diag_spec(xy, goal, d),
    {
        Self::lemma_same_grid(a, b);
        assert(b.jumps_fn() == a.jumps_fn());
    }

    /// A grid whose size, vectors' lengths and jump distances stay as they
    /// were stays well formed.
    proof fn lemma_wf_frame(a: &PathGrid, b: &PathGrid)
        requires
            a.wf(),
            b.w == a.w,
            b.h == a.h,
            b.jumps@ == a.jumps@,
            packed_bits(b.states).len() == packed_bits(a.states).len(),
            b.closed@.len() == a.closed@.len(),
        ensures
            b.wf(),
    {
        assert forall|x: int, y: int| b.inside(x, y) implies #[trigger] b.jumps_inside(x, y) by {
            assert(a.jumps_inside(x, y));
        }
    }

    /// Opens or closes tile `p`; closing a tile outside the grid does
    /// nothing (opening one is refused by `requires`: the grid panics).
    pub fn set_state(&mut self, p: (isize, isize), state: bool)
        requires
            old(self).wf(),
            state ==> old(self).inside(p.0 as int, p.1 as int),
        ensures
            final(self).wf(),
            final(self).width() == old(self).width(),
            final(self).height() == old(self).height(),
            final(self).round() == old(self).round(),
            final(self).expanded() == old(self).expanded(),
            forall|x: int, y: int|
                #![trigger final(self).state(x, y)]
                old(self).inside(x, y) ==> final(self).state(x, y) == if x == p.0 && y == p.1 {
                    state
                } else {
                    old(self).state(x, y)
                },
            forall|x: int, y: int| #[trigger] final(self).jumps_at(x, y) == old(self).jumps_at(x, y),
            forall|x: int, y: int| #[trigger] final(self).closed_mark(x, y) == old(self).closed_mark(x, y),
    {
        let (x, y) = p;
        if !self.inside_bounds((x, y)) {
            return;
        }
        proof {
            lemma_cell_index(self.w as int, self.h as int, x as int, y as int, x as int, y as int);
        }
        bits_set(&mut self.states, (y * self.w + x) as usize, state);
        proof {
            Self::lemma_wf_frame(old(self), self);
            assert forall|i: int, j: int| old(self).inside(i, j) implies #[trigger] self.state(i, j)
                == if i == p.0 && j == p.1 {
                state
            } else {
                old(self).state(i, j)
            } by {
                lemma_cell_index(self.w as int, self.h as int, x as int, y as int, i, j);
                lemma_cell_index(self.w as int, self.h as int, i, j, x as int, y as int);
            }
        }
    }

    /// Whether tile `p` is closed in the current search round.
    pub fn is_in_closed_list(&self, p: (isize, isize)) -> (r: bool)
        requires
            self.wf(),
            self.inside(p.0 as int, p.1 as int),
        ensures
            r == (self.closed_mark(p.0 as int, p.1 as int) == self.round()),
    {
        let (x, y) = p;
        proof {
            lemma_cell_index(self.w as int, self.h as int, x as int, y as int, x as int, y as int);
        }
        self.closed[(y * self.w + x) as usize] == self.counter
    }

    /// Closes tile `p` for the current search round.
    pub fn add_to_closed_list(&mut self, p: (isize, isize))
        requires
            old(self).wf(),
            old(self).inside(p.0 as int, p.1 as int),
        ensures
            final(self).wf(),
            final(self).width() == old(self).width(),
            final(self).height() == old(self).height(),
            final(self).round() == old(self).round(),
            final(self).expanded() == old(self).expanded(),
            forall|x: int, y: int| #[trigger] final(self).state(x, y) == old(self).state(x, y),
            forall|x: int, y: int| #[trigger] final(self).jumps_at(x, y) == old(self).jumps_at(x, y),
            forall|x: int, y: int|
                #![trigger final(self).closed_mark(x, y)]
                old(self).inside(x, y) ==> final(self).closed_mark(x, y) == if x == p.0 && y == p.1 {
                    old(self).round()
                } else {
                    old(self).closed_mark(x, y)
                },
    {
        let (x, y) = p;
        proof {
            lemma_cell_index(self.w as int, self.h as int, x as int, y as int, x as int, y as int);
        }
        let c = self.counter;
        self.closed.set((y * self.w + x) as usize, c);
        proof {
            Self::lemma_wf_frame(old(self), self);
            assert forall|i: int, j: int| old(self).inside(i, j) implies #[trigger] self.closed_mark(i, j)
                == if i == p.0 && j == p.1 {
                old(self).round()
            } else {
                old(self).closed_mark(i, j)
            } by {
                lemma_cell_index(self.w as int, self.h as int, x as int, y as int, i, j);
                lemma_cell_index(self.w as int, self.h as int, i, j, x as int, y as int);
            }
        }
    }

    /// How many search rounds have started.
    pub fn rounds(&self) -> (r: usize)
        ensures
            r == self.round(),
    {
        self.counter
    }

    /// Starts a new search round: every tile leaves the closed list, and
    /// the expansion list empties.
    pub fn reset(&mut self)
        requires
            old(self).wf(),
            old(self).round() < usize::MAX,
        ensures
            final(self).wf(),
            final(self).width() == old(self).width(),
            final(self).height() == old(self).height(),
            final(self).round() == old(self).round() + 1,
            final(self).expanded() == Seq::<((isize, isize), Direction)>::empty(),
            forall|x: int, y: int| #[trigger] final(self).state(x, y) == old(self).state(x, y),
            forall|x: int, y: int| #[trigger] final(self).jumps_at(x, y) == old(self).jumps_at(x, y),
            forall|x: int, y: int| #[trigger] final(self).closed_mark(x, y) == old(self).closed_mark(x, y),
    {
        self.counter = self.counter + 1;
        self.expand.clear();
        proof {
            Self::lemma_wf_frame(old(self), self);
        }
    }

    /// The jump distance of tile `p` in axis direction `dir`.
    pub fn get_jump_dist(&self, dir: Direction, p: (isize, isize)) -> (r: u16)
        requires
            self.wf(),
            is_axis_dir(dir.0 as int),
            self.inside(p.0 as int, p.1 as int),
        ensures
            r == dist_in(self.jumps_at(p.0 as int, p.1 as int), dir.0 as int),
    {
        let (x, y) = p;
        proof {
            lemma_cell_index(self.w as int, self.h as int, x as int, y as int, x as int, y as int);
        }
        let j = self.jumps[(y * self.w + x) as usize];
        if dir.0 == 0 {
            j.nj
        } else if dir.0 == 2 {
            j.ej
        } else if dir.0 == 4 {
            j.sj
        } else {
            j.wj
        }
    }

    /// Sets the jump distance of tile `p` in axis direction `dir` to `dist`,
    /// which must lead to a tile inside the grid.
    pub fn set_jump_dist(&mut self, dir: Direction, p: (isize, isize), dist: u16)
        requires
            old(self).wf(),
            is_axis_dir(dir.0 as int),
            old(self).inside(p.0 as int, p.1 as int),
            ({
                let f = steps(dir.0 as int, p.0 as int, p.1 as int, dist as int);
                old(self).inside(f.0, f.1)
            }),
        ensures
            final(self).wf(),
            final(self).width() == old(self).width(),
            final(self).height() == old(self).height(),
            final(self).round() == old(self).round(),
            final(self).expanded() == old(self).expanded(),
            forall|x: int, y: int| #[trigger] final(self).state(x, y) == old(self).state(x, y),
            forall|x: int, y: int| #[trigger] final(self).closed_mark(x, y) == old(self).closed_mark(x, y),
            forall|x: int, y: int|
                #![trigger final(self).jumps_at(x, y)]
                old(self).inside(x, y) ==> final(self).jumps_at(x, y) == if x == p.0 && y == p.1 {
                    set_dist_in(old(self).jumps_at(x, y), dir.0 as int, dist)
                } else {
                    old(self).jumps_at(x, y)
                },
    {
        let (x, y) = p;
        proof {
            lemma_cell_index(self.w as int, self.h as int, x as int, y as int, x as int, y as int);
        }
        let ix = (y * self.w + x) as usize;
        let mut j = self.jumps[ix];
        if dir.0 == 0 {
            j.nj = dist;
        } else if dir.0 == 2 {
            j.ej = dist;
        } else if dir.0 == 4 {
            j.sj = dist;
        } else {
            j.wj = dist;
        }
        let ghost old_j = self.jumps@[ix as int];
        self.jumps.set(ix, j);
        proof {
            assert(j == set_dist_in(old_j, dir.0 as int, dist));
            assert forall|i: int, k: int| old(self).inside(i, k) implies #[trigger] self.jumps_at(i, k)
                == if i == p.0 && k == p.1 {
                set_dist_in(old(self).jumps_at(i, k), dir.0 as int, dist)
            } else {
                old(self).jumps_at(i, k)
            } by {
                lemma_cell_index(self.w as int, self.h as int, x as int, y as int, i, k);
                lemma_cell_index(self.w as int, self.h as int, i, k, x as int, y as int);
            }
        }
    }

    /// The tile `dir`'s jump distance away from `p`, if `p` keeps one in
    /// that axis direction.
    pub fn get_jump(&self, dir: Direction, p: (isize, isize)) -> (r: Option<(isize, isize)>)
        requires
            self.wf(),
            is_axis_dir(dir.0 as int),
            self.inside(p.0 as int, p.1 as int),
        ensures
            ({
                let d = dist_in(self.jumps_at(p.0 as int, p.1 as int), dir.0 as int);
                let f = steps(dir.0 as int, p.0 as int, p.1 as int, d);
                &&& r is None <==> d == 0
                &&& r matches Some(q) ==> q.0 == f.0 && q.1 == f.1 && self.inside(f.0, f.1)
            }),
    {
        let (x, y) = p;
        let jmp_offset = self.get_jump_dist(dir, p);
        if jmp_offset > 0 {
            if dir.0 == 0 {
                Some((x, y + jmp_offset as isize))
            } else if dir.0 == 2 {
                Some((x + jmp_offset as isize, y))
            } else if dir.0 == 4 {
                Some((x, y - jmp_offset as isize))
            } else {
                Some((x - jmp_offset as isize, y))
            }
        } else {
            None
        }
    }

    /// Whether `xy` is a jump point for a search heading in axis direction
    /// `dir`.
    pub fn is_axis_jump(&self, dir: Direction, xy: (isize, isize)) -> (r: bool)
        requires
            self.wf(),
            is_axis_dir(dir.0 as int),
            isize::MIN < xy.0 < isize::MAX,
            isize::MIN < xy.1 < isize::MAX,
        ensures
            r == self.axis_jump_spec(dir.0 as int, xy.0 as int, xy.1 as int),
    {
        let w = next_to(rotate_cc(Degree(2), dir), xy);
        let nw = next_to(rotate_cc(Degree(1), dir), xy);
        let n = next_to(dir, xy);
        let s = next_to(rotate_c(Degree(4), dir), xy);
        let ne = next_to(rotate_c(Degree(1), dir), xy);
        let e = next_to(rotate_c(Degree(2), dir), xy);

        self.is_open(xy) && self.is_open(n) && self.is_open(s) && (!self.is_open(w) && self.is_open(nw)
            || !self.is_open(e) && self.is_open(ne))
    }

    /// Whether `xy` is a jump point for a search heading in diagonal
    /// direction `dir`.
    pub fn is_diag_jump(&self, dir: Direction, xy: (isize, isize)) -> (r: bool)
        requires
            self.wf(),
            is_compass(dir.0 as int),
            isize::MIN < xy.0 < isize::MAX,
            isize::MIN < xy.1 < isize::MAX,
        ensures
            r == self.diag_jump_spec(dir.0 as int, xy.0 as int, xy.1 as int),
    {
        let n = next_to(rotate_cc(Degree(1), dir), xy);
        let s = next_to(rotate_c(Degree(3), dir), xy);
        let e = next_to(rotate_c(Degree(1), dir), xy);
        let w = next_to(rotate_cc(Degree(3), dir), xy);
        let nw = next_to(rotate_cc(Degree(2), dir), xy);
        let se = next_to(rotate_c(Degree(2), dir), xy);

        match (self.is_open(w), self.is_open(s)) {
            (false, true) => self.is_open(n) && self.is_open(nw),
            (true, false) => self.is_open(e) && self.is_open(se),
            _ => false,
        }
    }
    /// Walks from `start` in axis direction `move_dir`, collecting the open
    /// tiles, until a jump point for `jump_dir` (collected too, and
    /// answered) or a closed tile (answering `None`).
    pub fn accum(&self, jump_dir: Direction, move_dir: Direction, start: (isize, isize)) -> (r: (
        Option<(isize, isize)>,
        Vec<(isize, isize)>,
    ))
        requires
            self.wf(),
            is_axis_dir(jump_dir.0 as int),
            is_axis_dir(move_dir.0 as int),
            isize::MIN + 1 < start.0 < isize::MAX - 1,
            isize::MIN + 1 < start.1 < isize::MAX - 1,
        ensures
            ({
                let n = r.1@.len() as int;
                let m = move_dir.0 as int;
                &&& forall|i: int|
                    0 <= i < n ==> (#[trigger] r.1@[i].0 as int, r.1@[i].1 as int) == steps(
                        m,
                        start.0 as int,
                        start.1 as int,
                        i + 1,
                    )
                &&& forall|i: int| 0 <= i < n ==> self.open_at(#[trigger] r.1@[i].0 as int, r.1@[i].1 as int)
                &&& forall|i: int|
                    0 <= i < n && (i < n - 1 || r.0 is None) ==> !self.axis_jump_spec(
                        jump_dir.0 as int,
                        #[trigger] r.1@[i].0 as int,
                        r.1@[i].1 as int,
                    )
                &&& r.0 matches Some(j) ==> n >= 1 && j == r.1@[n - 1] && self.axis_jump_spec(
                    jump_dir.0 as int,
                    j.0 as int,
                    j.1 as int,
                )
                &&& r.0 is None ==> ({
                    let f = steps(m, start.0 as int, start.1 as int, n + 1);
                    !self.open_at(f.0, f.1) && !self.axis_jump_spec(jump_dir.0 as int, f.0, f.1)
                })
            }),
    {
        let mut xy = next_to(move_dir, start);
        let mut vec: Vec<(isize, isize)> = Vec::new();
        loop
            invariant
                self.wf(),
                is_axis_dir(jump_dir.0 as int),
                is_axis_dir(move_dir.0 as int),
                isize::MIN + 1 < start.0 < isize::MAX - 1,
                isize::MIN + 1 < start.1 < isize::MAX - 1,
                (xy.0 as int, xy.1 as int) == steps(
                    move_dir.0 as int,
                    start.0 as int,
                    start.1 as int,
                    (vec@.len() + 1) as int,
                ),
                isize::MIN < xy.0 < isize::MAX,
                isize::MIN < xy.1 < isize::MAX,
                forall|i: int|
                    0 <= i < vec@.len() ==> (#[trigger] vec@[i].0 as int, vec@[i].1 as int) == steps(
                        move_dir.0 as int,
                        start.0 as int,
                        start.1 as int,
                        i + 1,
                    ),
                forall|i: int| 0 <= i < vec@.len() ==> self.open_at(#[trigger] vec@[i].0 as int, vec@[i].1 as int),
                forall|i: int|
                    0 <= i < vec@.len() ==> !self.axis_jump_spec(
                        jump_dir.0 as int,
                        #[trigger] vec@[i].0 as int,
                        vec@[i].1 as int,
                    ),
            decreases steps_out(move_dir.0 as int, xy.0 as int, xy.1 as int, self.width(), self.height()) + 2,
        {
            if self.is_axis_jump(jump_dir, xy) {
                vec.push(xy);
                return (Some(xy), vec);
            } else if self.is_open(xy) {
                vec.push(xy);
                xy = next_to(move_dir, xy);
            } else {
                return (None, vec);
            }
        }
    }
    /// Each jump distance of `b` is `a`'s, or that of an open tile of `a`
    /// that holds the distance to the first jump point ahead over `a`'s
    /// tiles.
    pub open spec fn keeps_or_settles(a: PathGrid, b: PathGrid) -> bool {
        forall|x: int, y: int, d: int|
            #![trigger dist_in(b.jumps_at(x, y), d)]
            a.inside(x, y) && is_axis_dir(d) ==> dist_in(b.jumps_at(x, y), d) == dist_in(a.jumps_at(x, y), d)
                || (a.open_at(x, y) && ahead_is(a.open_fn(), d, x, y, dist_in(b.jumps_at(x, y), d)))
    }

    /// Grids of one size with the same tiles have the same open tiles.
    proof fn lemma_same_open(a: PathGrid, b: PathGrid)
        requires
            b.width() == a.width(),
            b.height() == a.height(),
            forall|x: int, y: int| #[trigger] b.state(x, y) == a.state(x, y),
        ensures
            b.open_fn() == a.open_fn(),
            forall|x: int, y: int| #[trigger] b.open_at(x, y) == a.open_at(x, y),
    {
        assert forall|x: int, y: int| #[trigger] b.open_at(x, y) == a.open_at(x, y) by {
            assert(b.state(x, y) == a.state(x, y));
        }
        assert(b.open_fn() =~= a.open_fn());
    }

    /// Writing a settled distance keeps `keeps_or_settles`.
    proof fn lemma_keeps_after_write(o: PathGrid, before: PathGrid, after: PathGrid, d: int, ax: int, ay: int, v: int)
        requires
            Self::keeps_or_settles(o, before),
            is_axis_dir(d),
            0 <= v < 65536,
            before.width() == o.width(),
            before.height() == o.height(),
            o.open_at(ax, ay),
            ahead_is(o.open_fn(), d, ax, ay, v),
            forall|x: int, y: int|
                #![trigger after.jumps_at(x, y)]
                before.inside(x, y) ==> after.jumps_at(x, y) == if x == ax && y == ay {
                    set_dist_in(before.jumps_at(x, y), d, v as u16)
                } else {
                    before.jumps_at(x, y)
                },
        ensures
            Self::keeps_or_settles(o, after),
    {
        assert forall|x: int, y: int, d2: int|
            o.inside(x, y) && is_axis_dir(d2) implies #[trigger] dist_in(after.jumps_at(x, y), d2) == dist_in(
            o.jumps_at(x, y),
            d2,
        ) || (o.open_at(x, y) && ahead_is(o.open_fn(), d2, x, y, dist_in(after.jumps_at(x, y), d2))) by {
            assert(before.inside(x, y));
            assert(dist_in(before.jumps_at(x, y), d2) == dist_in(o.jumps_at(x, y), d2) || (o.open_at(x, y)
                && ahead_is(o.open_fn(), d2, x, y, dist_in(before.jumps_at(x, y), d2))));
            if x == ax && y == ay && d2 == d {
            } else {
                assert(dist_in(after.jumps_at(x, y), d2) == dist_in(before.jumps_at(x, y), d2));
            }
        }
    }

    /// `keeps_or_settles` between grids with the same tiles is `refined_by`.
    proof fn lemma_keeps_gives_refined(a: PathGrid, b: PathGrid)
        requires
            Self::keeps_or_settles(a, b),
            b.width() == a.width(),
            b.height() == a.height(),
            forall|x: int, y: int| #[trigger] b.state(x, y) == a.state(x, y),
        ensures
            a.refined_by(b),
    {
        Self::lemma_same_open(a, b);
        assert forall|x: int, y: int, d: int|
            a.inside(x, y) && is_axis_dir(d) implies #[trigger] dist_in(b.jumps_at(x, y), d) == dist_in(
            a.jumps_at(x, y),
            d,
        ) || b.settled(d, x, y) by {
            assert(b.open_at(x, y) == a.open_at(x, y));
        }
    }

    /// What `accum` answers, walking from `(bx, by)` in direction `md` and
    /// watching for jump points for `jd`, as a run: up to a jump point `n`
    /// steps on, or up to a closed tile one step past the `n` tiles
    /// collected.
    proof fn lemma_accum_walk(g: PathGrid, jd: int, md: int, bx: int, by: int, full: Seq<(isize, isize)>, found: bool)
        requires
            forall|i: int|
                0 <= i < full.len() ==> (#[trigger] full[i].0 as int, full[i].1 as int) == steps(md, bx, by, i + 1),
            forall|i: int| 0 <= i < full.len() ==> g.open_at(#[trigger] full[i].0 as int, full[i].1 as int),
            forall|i: int|
                0 <= i < full.len() && (i < full.len() - 1 || !found) ==> !g.axis_jump_spec(
                    jd,
                    #[trigger] full[i].0 as int,
                    full[i].1 as int,
                ),
            found ==> full.len() >= 1 && g.axis_jump_spec(
                jd,
                full[full.len() - 1].0 as int,
                full[full.len() - 1].1 as int,
            ),
            !found ==> ({
                let f = steps(md, bx, by, full.len() as int + 1);
                !g.open_at(f.0, f.1)
            }),
        ensures
            found ==> clear_walk(g.open_fn(), jd, md, bx, by, full.len() as int) && step_jump(
                g.open_fn(),
                jd,
                md,
                bx,
                by,
                full.len() as int,
            ),
            !found ==> clear_walk(g.open_fn(), jd, md, bx, by, full.len() as int + 1) && !step_open(
                g.open_fn(),
                md,
                bx,
                by,
                full.len() as int + 1,
            ),
    {
        let n = full.len() as int;
        let lim = if found { n } else { n + 1 };
        assert forall|i: int| 1 <= i < lim implies #[trigger] step_open(g.open_fn(), md, bx, by, i) && !step_jump(
            g.open_fn(),
            jd,
            md,
            bx,
            by,
            i,
        ) by {
            assert((full[i - 1].0 as int, full[i - 1].1 as int) == steps(md, bx, by, i));
            assert(g.open_at(full[i - 1].0 as int, full[i - 1].1 as int));
            assert(!g.axis_jump_spec(jd, full[i - 1].0 as int, full[i - 1].1 as int));
        }
        if found {
            assert((full[n - 1].0 as int, full[n - 1].1 as int) == steps(md, bx, by, n));
        }
    }

    /// Gives the open tiles from `base` on in axis direction `dir`, up to
    /// the next jump point for `dir`, their distance to it; with no jump
    /// point before a closed tile, clears their distances instead. `base`
    /// gets its distance too.
    fn set_run_from(&mut self, dir: Direction, base: (isize, isize))
        requires
            old(self).wf(),
            is_axis_dir(dir.0 as int),
            old(self).open_at(base.0 as int, base.1 as int),
        ensures
            final(self).wf(),
            final(self).width() == old(self).width(),
            final(self).height() == old(self).height(),
            final(self).round() == old(self).round(),
            final(self).expanded() == old(self).expanded(),
            forall|x: int, y: int| #[trigger] final(self).state(x, y) == old(self).state(x, y),
            forall|x: int, y: int| #[trigger] final(self).closed_mark(x, y) == old(self).closed_mark(x, y),
            forall|x: int, y: int|
                old(self).inside(x, y) && !old(self).state(x, y) ==> #[trigger] final(self).jumps_at(x, y)
                    == old(self).jumps_at(x, y),
            old(self).refined_by(*final(self)),
            forall|k: int|
                #![trigger clear_walk(old(self).open_fn(), dir.0 as int, dir.0 as int, base.0 as int, base.1 as int, k)]
                k >= 1 && clear_walk(old(self).open_fn(), dir.0 as int, dir.0 as int, base.0 as int, base.1 as int, k)
                    ==> final(self).settled(
                    dir.0 as int,
                    steps(dir.0 as int, base.0 as int, base.1 as int, k - 1).0,
                    steps(dir.0 as int, base.0 as int, base.1 as int, k - 1).1,
                ),
    {
        let ghost d = dir.0 as int;
        let ghost bx = base.0 as int;
        let ghost by = base.1 as int;
        let ghost open = old(self).open_fn();
        match self.accum(dir, dir, base) {
            (Some(_), vec) => {
                let mut vec = vec;
                let ghost n = vec@.len() as int;
                let ghost full = vec@;
                proof {
                    let j = full[n - 1];
                    assert(self.inside(j.0 as int, j.1 as int));
                    assert(n <= 65534);
                    Self::lemma_accum_walk(*self, d, d, bx, by, full, true);
                }
                vec.pop();
                let mut k = vec.len();
                let mut dist: u16 = 1;
                while k > 0
                    invariant
                        self.wf(),
                        self.width() == old(self).width(),
                        self.height() == old(self).height(),
                        self.round() == old(self).round(),
                        self.expanded() == old(self).expanded(),
                        forall|x: int, y: int| #[trigger] self.state(x, y) == old(self).state(x, y),
                        forall|x: int, y: int| #[trigger] self.closed_mark(x, y) == old(self).closed_mark(x, y),
                        forall|x: int, y: int|
                            old(self).inside(x, y) && !old(self).state(x, y) ==> #[trigger] self.jumps_at(x, y)
                                == old(self).jumps_at(x, y),
                        is_axis_dir(dir.0 as int),
                        d == dir.0 as int,
                        bx == base.0 as int,
                        by == base.1 as int,
                        open == old(self).open_fn(),
                        old(self).open_at(base.0 as int, base.1 as int),
                        full.len() == n,
                        vec@ == full.take(n - 1),
                        k <= n - 1,
                        dist + k == n,
                        n <= 65534,
                        1 <= n,
                        forall|i: int|
                            0 <= i < n ==> (#[trigger] full[i].0 as int, full[i].1 as int) == steps(
                                dir.0 as int,
                                base.0 as int,
                                base.1 as int,
                                i + 1,
                            ),
                        forall|i: int| 0 <= i < n ==> old(self).open_at(#[trigger] full[i].0 as int, full[i].1 as int),
                        clear_walk(open, d, d, bx, by, n),
                        step_jump(open, d, d, bx, by, n),
                        Self::keeps_or_settles(*old(self), *self),
                        forall|j: int|
                            k <= j < n - 1 ==> dist_in(
                                self.jumps_at(#[trigger] full[j].0 as int, full[j].1 as int),
                                d,
                            ) == n - 1 - j,
                    decreases k,
                {
                    k = k - 1;
                    let a = vec[k];
                    let ghost before = *self;
                    proof {
                        let j = full[n - 1];
                        assert(old(self).open_at(j.0 as int, j.1 as int));
                        assert(a == full[k as int]);
                        lemma_run_to_jump(open, d, bx, by, n, k + 1);
                    }
                    self.set_jump_dist(dir, a, dist);
                    proof {
                        Self::lemma_keeps_after_write(*old(self), before, *self, d, a.0 as int, a.1 as int, dist as int);
                        assert forall|j: int| k <= j < n - 1 implies dist_in(
                            self.jumps_at(#[trigger] full[j].0 as int, full[j].1 as int),
                            d,
                        ) == n - 1 - j by {
                            if j != k {
                                lemma_steps_distinct(d, bx, by, j + 1, k + 1);
                                assert(before.inside(full[j].0 as int, full[j].1 as int));
                            }
                        }
                    }
                    dist = dist + 1;
                }
                let ghost before = *self;
                proof {
                    lemma_run_to_jump(open, d, bx, by, n, 0);
                }
                self.set_jump_dist(dir, base, dist);
                proof {
                    Self::lemma_keeps_after_write(*old(self), before, *self, d, bx, by, dist as int);
                    assert forall|j: int| 0 <= j < n - 1 implies dist_in(
                        self.jumps_at(#[trigger] full[j].0 as int, full[j].1 as int),
                        d,
                    ) == n - 1 - j by {
                        lemma_steps_distinct(d, bx, by, j + 1, 0);
                        assert(before.inside(full[j].0 as int, full[j].1 as int));
                    }
                    Self::lemma_keeps_gives_refined(*old(self), *self);
                    assert forall|kk: int|
                        #![trigger clear_walk(open, d, d, bx, by, kk)]
                        kk >= 1 && clear_walk(open, d, d, bx, by, kk) implies self.settled(
                        d,
                        steps(d, bx, by, kk - 1).0,
                        steps(d, bx, by, kk - 1).1,
                    ) by {
                        let i = kk - 1;
                        if i >= n {
                            assert(step_open(open, d, bx, by, n));
                        }
                        lemma_run_to_jump(open, d, bx, by, n, i);
                        Self::lemma_same_open(*old(self), *self);
                        let p = steps(d, bx, by, i);
                        if i == 0 {
                            assert(p == (bx, by));
                            assert(before.inside(bx, by));
                            assert(dist_in(self.jumps_at(bx, by), d) == n);
                        } else {
                            assert((full[i - 1].0 as int, full[i - 1].1 as int) == p);
                            assert(old(self).open_at(full[i - 1].0 as int, full[i - 1].1 as int));
                            assert(dist_in(self.jumps_at(full[i - 1].0 as int, full[i - 1].1 as int), d) == n - i);
                        }
                    }
                }
            },
            (None, vec) => {
                let ghost n = vec@.len() as int;
                proof {
                    Self::lemma_accum_walk(*self, d, d, bx, by, vec@, false);
                }
                let mut k: usize = 0;
                while k < vec.len()
                    invariant
                        self.wf(),
                        self.width() == old(self).width(),
                        self.height() == old(self).height(),
                        self.round() == old(self).round(),
                        self.expanded() == old(self).expanded(),
                        forall|x: int, y: int| #[trigger] self.state(x, y) == old(self).state(x, y),
                        forall|x: int, y: int| #[trigger] self.closed_mark(x, y) == old(self).closed_mark(x, y),
                        forall|x: int, y: int|
                            old(self).inside(x, y) && !old(self).state(x, y) ==> #[trigger] self.jumps_at(x, y)
                                == old(self).jumps_at(x, y),
                        is_axis_dir(dir.0 as int),
                        d == dir.0 as int,
                        bx == base.0 as int,
                        by == base.1 as int,
                        open == old(self).open_fn(),
                        old(self).open_at(base.0 as int, base.1 as int),
                        n == vec@.len(),
                        k <= vec@.len(),
                        forall|i: int|
                            0 <= i < n ==> (#[trigger] vec@[i].0 as int, vec@[i].1 as int) == steps(
                                dir.0 as int,
                                base.0 as int,
                                base.1 as int,
                                i + 1,
                            ),
                        forall|i: int| 0 <= i < vec@.len() ==> old(self).open_at(#[trigger] vec@[i].0 as int, vec@[i].1 as int),
                        clear_walk(open, d, d, bx, by, n + 1),
                        !step_open(open, d, bx, by, n + 1),
                        Self::keeps_or_settles(*old(self), *self),
                        forall|j: int|
                            0 <= j < k ==> dist_in(
                                self.jumps_at(#[trigger] vec@[j].0 as int, vec@[j].1 as int),
                                d,
                            ) == 0,
                    decreases vec@.len() - k,
                {
                    let ghost before = *self;
                    proof {
                        lemma_run_to_wall(open, d, bx, by, n + 1, k + 1);
                    }
                    self.set_jump_dist(dir, vec[k], 0);
                    proof {
                        Self::lemma_keeps_after_write(*old(self), before, *self, d, vec@[k as int].0 as int, vec@[k as int].1 as int, 0);
                        assert forall|j: int| 0 <= j < k + 1 implies dist_in(
                            self.jumps_at(#[trigger] vec@[j].0 as int, vec@[j].1 as int),
                            d,
                        ) == 0 by {
                            if j != k {
                                lemma_steps_distinct(d, bx, by, j + 1, k + 1);
                                assert(before.inside(vec@[j].0 as int, vec@[j].1 as int));
                            }
                        }
                    }
                    k = k + 1;
                }
                let ghost before = *self;
                proof {
                    lemma_run_to_wall(open, d, bx, by, n + 1, 0);
                }
                self.set_jump_dist(dir, base, 0);
                proof {
                    Self::lemma_keeps_after_write(*old(self), before, *self, d, bx, by, 0);
                    assert forall|j: int| 0 <= j < n implies dist_in(
                        self.jumps_at(#[trigger] vec@[j].0 as int, vec@[j].1 as int),
                        d,
                    ) == 0 by {
                        lemma_steps_distinct(d, bx, by, j + 1, 0);
                        assert(before.inside(vec@[j].0 as int, vec@[j].1 as int));
                    }
                    Self::lemma_keeps_gives_refined(*old(self), *self);
                    assert forall|kk: int|
                        #![trigger clear_walk(open, d, d, bx, by, kk)]
                        kk >= 1 && clear_walk(open, d, d, bx, by, kk) implies self.settled(
                        d,
                        steps(d, bx, by, kk - 1).0,
                        steps(d, bx, by, kk - 1).1,
                    ) by {
                        let i = kk - 1;
                        if i > n {
                            assert(step_open(open, d, bx, by, n + 1));
                        }
                        lemma_run_to_wall(open, d, bx, by, n + 1, i);
                        Self::lemma_same_open(*old(self), *self);
                        let p = steps(d, bx, by, i);
                        if i == 0 {
                            assert(p == (bx, by));
                            assert(before.inside(bx, by));
                            assert(dist_in(self.jumps_at(bx, by), d) == 0);
                        } else {
                            assert((vec@[i - 1].0 as int, vec@[i - 1].1 as int) == p);
                            assert(old(self).open_at(vec@[i - 1].0 as int, vec@[i - 1].1 as int));
                            assert(dist_in(self.jumps_at(vec@[i - 1].0 as int, vec@[i - 1].1 as int), d) == 0);
                        }
                    }
                }
            },
        }
    }

    /// A grid refines itself.
    proof fn lemma_refined_refl(a: PathGrid)
        ensures
            a.refined_by(a),
    {
    }

    /// Refining is transitive.
    proof fn lemma_refined_trans(a: PathGrid, b: PathGrid, c: PathGrid)
        requires
            a.refined_by(b),
            b.refined_by(c),
        ensures
            a.refined_by(c),
    {
        assert forall|x: int, y: int, d: int|
            a.inside(x, y) && is_axis_dir(d) implies #[trigger] dist_in(c.jumps_at(x, y), d) == dist_in(
            a.jumps_at(x, y),
            d,
        ) || c.settled(d, x, y) by {
            assert(b.inside(x, y));
            assert(dist_in(b.jumps_at(x, y), d) == dist_in(a.jumps_at(x, y), d) || b.settled(d, x, y));
            assert(c.open_fn()(x, y) == b.open_fn()(x, y));
        }
    }

    /// What a walk back covers stays covered in a refinement.
    proof fn lemma_covered_persists(a: PathGrid, b: PathGrid)
        requires
            a.refined_by(b),
        ensures
            forall|d: int, qx: int, qy: int|
                is_axis_dir(d) && Self::back_covered(a, d, qx, qy) ==> #[trigger] Self::back_covered(b, d, qx, qy),
    {
        assert forall|d: int, qx: int, qy: int|
            is_axis_dir(d) && Self::back_covered(a, d, qx, qy) implies #[trigger] Self::back_covered(b, d, qx, qy) by {
            let bk = rotate_c_spec(4, d);
            assert forall|k: int|
                #![trigger clear_walk(b.open_fn(), d, bk, qx, qy, k)]
                k >= 1 && clear_walk(b.open_fn(), d, bk, qx, qy, k) && step_open(b.open_fn(), bk, qx, qy, k)
                    implies b.settled(d, steps(bk, qx, qy, k).0, steps(bk, qx, qy, k).1) by {
                let t = steps(bk, qx, qy, k);
                assert(clear_walk(a.open_fn(), d, bk, qx, qy, k));
                assert(a.settled(d, t.0, t.1));
                assert(a.inside(t.0, t.1));
                assert(dist_in(b.jumps_at(t.0, t.1), d) == dist_in(a.jumps_at(t.0, t.1), d) || b.settled(
                    d,
                    t.0,
                    t.1,
                ));
                assert(b.open_fn()(t.0, t.1) == a.open_fn()(t.0, t.1));
            }
        }
    }

    /// Outside the rectangle and its ring, a tile and its neighbors kept
    /// their states, so it is open and a jump point as before.
    proof fn lemma_tile_unchanged(
        a: PathGrid,
        b: PathGrid,
        p0: (isize, isize),
        p1: (isize, isize),
        ooc: bool,
        tx: int,
        ty: int,
        d: int,
    )
        requires
            b.width() == a.width(),
            b.height() == a.height(),
            forall|x: int, y: int|
                #![trigger b.state(x, y)]
                a.inside(x, y) ==> b.state(x, y) == if in_box(p0, p1, x, y) {
                    ooc
                } else {
                    a.state(x, y)
                },
            !near_box(p0, p1, tx, ty),
            is_axis_dir(d),
        ensures
            b.open_at(tx, ty) == a.open_at(tx, ty),
            axis_jump_of(b.open_fn(), d, tx, ty) == axis_jump_of(a.open_fn(), d, tx, ty),
    {
        assert forall|i: int, j: int| -1 <= i <= 1 && -1 <= j <= 1 implies #[trigger] b.open_at(tx + i, ty + j)
            == a.open_at(tx + i, ty + j) by {
            if a.inside(tx + i, ty + j) {
                assert(!in_box(p0, p1, tx + i, ty + j));
                assert(b.state(tx + i, ty + j) == a.state(tx + i, ty + j));
            }
        }
        assert(b.open_at(tx, ty) == a.open_at(tx, ty));
        assert(b.open_at(tx + 1, ty) == a.open_at(tx + 1, ty));
        assert(b.open_at(tx - 1, ty) == a.open_at(tx - 1, ty));
        assert(b.open_at(tx, ty + 1) == a.open_at(tx, ty + 1));
        assert(b.open_at(tx, ty - 1) == a.open_at(tx, ty - 1));
        assert(b.open_at(tx + 1, ty + 1) == a.open_at(tx + 1, ty + 1));
        assert(b.open_at(tx - 1, ty + 1) == a.open_at(tx - 1, ty + 1));
        assert(b.open_at(tx + 1, ty - 1) == a.open_at(tx + 1, ty - 1));
        assert(b.open_at(tx - 1, ty - 1) == a.open_at(tx - 1, ty - 1));
    }

    /// The scan along the walk from an open tile `(px, py)` outside the
    /// rectangle: the first tile of the walk that lies near the rectangle is
    /// covered by a walk back from it, and a walk that stays away from the
    /// rectangle saw the same tiles before; either way the tile keeps its
    /// distance to the first jump point ahead.
    proof fn lemma_scan(
        a: PathGrid,
        b: PathGrid,
        p0: (isize, isize),
        p1: (isize, isize),
        ooc: bool,
        d: int,
        px: int,
        py: int,
        k_o: int,
        t_end: int,
        s: int,
    )
        requires
            b.width() == a.width(),
            b.height() == a.height(),
            forall|x: int, y: int|
                #![trigger b.state(x, y)]
                a.inside(x, y) ==> b.state(x, y) == if in_box(p0, p1, x, y) {
                    ooc
                } else {
                    a.state(x, y)
                },
            forall|qx: int, qy: int, dd: int|
                b.inside(qx, qy) && near_box(p0, p1, qx, qy) && is_axis_dir(dd) ==> #[trigger] Self::back_covered(
                    b,
                    dd,
                    qx,
                    qy,
                ),
            is_axis_dir(d),
            b.open_at(px, py),
            dist_in(b.jumps_at(px, py), d) == k_o,
            1 <= s <= t_end,
            clear_walk(a.open_fn(), d, d, px, py, t_end),
            k_o > 0 ==> t_end == k_o && step_jump(a.open_fn(), d, d, px, py, t_end),
            k_o == 0 ==> !step_open(a.open_fn(), d, px, py, t_end),
            k_o >= 0,
            forall|i: int| 1 <= i < s ==> !near_box(p0, p1, #[trigger] steps(d, px, py, i).0, steps(d, px, py, i).1),
        ensures
            b.settled(d, px, py),
        decreases t_end - s,
    {
        let t = steps(d, px, py, s);
        let bk = rotate_c_spec(4, d);
        assert forall|i: int| 1 <= i < s implies #[trigger] step_open(b.open_fn(), d, px, py, i) && !step_jump(
            b.open_fn(),
            d,
            d,
            px,
            py,
            i,
        ) by {
            let u = steps(d, px, py, i);
            assert(!near_box(p0, p1, u.0, u.1));
            Self::lemma_tile_unchanged(a, b, p0, p1, ooc, u.0, u.1, d);
            assert(step_open(a.open_fn(), d, px, py, i));
        }
        if near_box(p0, p1, t.0, t.1) {
            if b.inside(t.0, t.1) {
                assert(Self::back_covered(b, d, t.0, t.1));
                assert forall|j: int| 1 <= j < s implies #[trigger] step_open(b.open_fn(), bk, t.0, t.1, j)
                    && !step_jump(b.open_fn(), d, bk, t.0, t.1, j) by {
                    lemma_steps_fwd_back(d, px, py, s, j);
                    assert(step_open(b.open_fn(), d, px, py, s - j));
                }
                assert(clear_walk(b.open_fn(), d, bk, t.0, t.1, s));
                lemma_steps_fwd_back(d, px, py, s, s);
                assert(step_open(b.open_fn(), bk, t.0, t.1, s));
            } else {
                if s < t_end {
                    assert(step_open(a.open_fn(), d, px, py, s));
                }
                assert(clear_walk(b.open_fn(), d, d, px, py, t_end));
                assert(!step_open(b.open_fn(), d, px, py, t_end));
            }
        } else if s == t_end {
            Self::lemma_tile_unchanged(a, b, p0, p1, ooc, t.0, t.1, d);
            assert(clear_walk(b.open_fn(), d, d, px, py, t_end));
            if k_o == 0 {
                assert(!step_open(b.open_fn(), d, px, py, t_end));
            } else {
                assert(step_jump(b.open_fn(), d, d, px, py, t_end));
            }
        } else {
            assert forall|i: int| 1 <= i < s + 1 implies !near_box(
                p0,
                p1,
                #[trigger] steps(d, px, py, i).0,
                steps(d, px, py, i).1,
            ) by {
                if i < s {
                    assert(!near_box(p0, p1, steps(d, px, py, i).0, steps(d, px, py, i).1));
                }
            }
            Self::lemma_scan(a, b, p0, p1, ooc, d, px, py, k_o, t_end, s + 1);
        }
    }

    /// After the tiles of a rectangle change and the runs through the
    /// rectangle and its ring are brought up to date, the jump distances
    /// agree with the tiles again.
    proof fn lemma_change_keeps_jumps(
        a: PathGrid,
        mid: PathGrid,
        b: PathGrid,
        p0: (isize, isize),
        p1: (isize, isize),
        ooc: bool,
    )
        requires
            a.jumps_ok(),
            mid.width() == a.width(),
            mid.height() == a.height(),
            mid.refined_by(b),
            b.width() == a.width(),
            b.height() == a.height(),
            forall|x: int, y: int|
                #![trigger b.state(x, y)]
                a.inside(x, y) ==> b.state(x, y) == if in_box(p0, p1, x, y) {
                    ooc
                } else {
                    a.state(x, y)
                },
            !ooc ==> forall|x: int, y: int|
                a.inside(x, y) && in_box(p0, p1, x, y) ==> #[trigger] mid.jumps_at(x, y) == zero_jumps(),
            forall|x: int, y: int|
                a.inside(x, y) && (ooc || !in_box(p0, p1, x, y)) ==> #[trigger] mid.jumps_at(x, y) == a.jumps_at(
                    x,
                    y,
                ),
            forall|qx: int, qy: int, dd: int|
                b.inside(qx, qy) && near_box(p0, p1, qx, qy) && is_axis_dir(dd) ==> #[trigger] Self::back_covered(
                    b,
                    dd,
                    qx,
                    qy,
                ),
        ensures
            b.jumps_ok(),
    {
        assert forall|px: int, py: int, d: int|
            b.inside(px, py) && is_axis_dir(d) implies if b.open_at(px, py) {
            b.settled(d, px, py)
        } else {
            #[trigger] dist_in(b.jumps_at(px, py), d) == 0
        } by {
            assert(a.inside(px, py));
            assert(mid.inside(px, py));
            let k_mid = dist_in(mid.jumps_at(px, py), d);
            let k_b = dist_in(b.jumps_at(px, py), d);
            assert(a.open_at(px, py) ==> a.settled(d, px, py));
            assert(!a.open_at(px, py) ==> dist_in(a.jumps_at(px, py), d) == 0);
            assert(b.state(px, py) == if in_box(p0, p1, px, py) {
                ooc
            } else {
                a.state(px, py)
            });
            if !b.open_at(px, py) {
                assert(k_b == k_mid);
            } else if !b.settled(d, px, py) {
                assert(k_b == k_mid);
                if in_box(p0, p1, px, py) {
                    let t = steps(d, px, py, 1);
                    assert(near_box(p0, p1, t.0, t.1));
                    if b.inside(t.0, t.1) {
                        assert(Self::back_covered(b, d, t.0, t.1));
                        lemma_steps_fwd_back(d, px, py, 1, 1);
                        assert(clear_walk(b.open_fn(), d, rotate_c_spec(4, d), t.0, t.1, 1));
                        assert(step_open(b.open_fn(), rotate_c_spec(4, d), t.0, t.1, 1));
                    } else {
                        assert(!step_open(b.open_fn(), d, px, py, 1));
                        assert(clear_walk(b.open_fn(), d, d, px, py, 1));
                        if a.open_at(px, py) {
                            assert(a.settled(d, px, py));
                            assert(!step_open(a.open_fn(), d, px, py, 1));
                            if k_mid > 1 {
                                assert(step_open(a.open_fn(), d, px, py, 1));
                            }
                        }
                        assert(k_mid == 0);
                    }
                } else {
                    assert(a.open_at(px, py));
                    assert(a.settled(d, px, py));
                    let k_o = k_mid;
                    let t_end = if k_o > 0 {
                        k_o
                    } else {
                        choose|m: int| m >= 1 && #[trigger] clear_walk(a.open_fn(), d, d, px, py, m) && !step_open(
                            a.open_fn(),
                            d,
                            px,
                            py,
                            m,
                        )
                    };
                    Self::lemma_scan(a, b, p0, p1, ooc, d, px, py, k_o, t_end, 1);
                }
            }
        }
    }

    /// What the check of tile `(x, y)` in axis direction `d` accepts: a jump
    /// point, a closed tile, a tile with no jump point ahead, or one that
    /// keeps the distance to the first jump point ahead.
    pub open spec fn jump_checks(&self, d: int, x: int, y: int) -> bool {
        ||| self.axis_jump_spec(d, x, y)
        ||| !self.open_at(x, y)
        ||| ahead_is(self.open_fn(), d, x, y, 0)
        ||| ahead_is(self.open_fn(), d, x, y, dist_in(self.jumps_at(x, y), d))
    }

    /// Checks the jump distance that tile `point` keeps in axis direction
    /// `dir`: walking ahead from an open tile that is not a jump point, past
    /// open tiles that are not jump points, the walk ends at a closed tile or
    /// at a jump point; a jump point there must be the one the tile keeps.
    /// Answers the kept jump point that disagrees, or the jump point ahead
    /// when the tile keeps none.
    #[verifier::spinoff_prover]
    pub fn verify_jump(&self, point: (isize, isize), dir: Direction) -> (r: Option<(isize, isize)>)
        requires
            self.wf(),
            is_axis_dir(dir.0 as int),
            self.inside(point.0 as int, point.1 as int),
        ensures
            r is None <==> self.jump_checks(dir.0 as int, point.0 as int, point.1 as int),
            r matches Some(q) ==> exists|k: int|
                k > 0 && (q.0 as int, q.1 as int) == steps(dir.0 as int, point.0 as int, point.1 as int, k) && (k
                    == dist_in(self.jumps_at(point.0 as int, point.1 as int), dir.0 as int) || ahead_is(
                    self.open_fn(),
                    dir.0 as int,
                    point.0 as int,
                    point.1 as int,
                    k,
                )),
    {
        let ghost d = dir.0 as int;
        let ghost px = point.0 as int;
        let ghost py = point.1 as int;
        let ghost open = self.open_fn();
        if self.is_axis_jump(dir, point) {
            return None;
        }
        if !self.is_open(point) {
            return None;
        }
        let mut xy = point;
        let ghost mut i: int = 0;
        while self.is_open(xy) && !self.is_axis_jump(dir, xy)
            invariant
                self.wf(),
                is_axis_dir(d),
                d == dir.0 as int,
                px == point.0 as int,
                py == point.1 as int,
                open == self.open_fn(),
                self.inside(px, py),
                0 <= i,
                (xy.0 as int, xy.1 as int) == steps(d, px, py, i),
                -1 <= xy.0 <= self.width(),
                -1 <= xy.1 <= self.height(),
                forall|t: int| 1 <= t < i ==> #[trigger] step_open(open, d, px, py, t) && !step_jump(open, d, d, px, py, t),
            decreases steps_out(d, xy.0 as int, xy.1 as int, self.width(), self.height()) + 1,
        {
            xy = next_to(dir, xy);
            proof {
                if i > 0 {
                    let prev = steps(d, px, py, i);
                    assert(self.open_at(prev.0, prev.1));
                    assert(!self.axis_jump_spec(d, prev.0, prev.1));
                }
                i = i + 1;
                assert forall|t: int| 1 <= t < i implies #[trigger] step_open(open, d, px, py, t) && !step_jump(
                    open,
                    d,
                    d,
                    px,
                    py,
                    t,
                ) by {
                    if t == i - 1 {
                        let prev = steps(d, px, py, t);
                        assert(self.open_at(prev.0, prev.1));
                    }
                }
            }
        }
        proof {
            assert(i >= 1) by {
                if i == 0 {
                    assert(self.open_at(px, py));
                }
            }
            assert(clear_walk(open, d, d, px, py, i));
        }
        match self.get_jump(dir, point) {
            Some(jump) => {
                if self.is_axis_jump(dir, xy) && (xy.0 != jump.0 || xy.1 != jump.1) {
                    proof {
                        let k = dist_in(self.jumps_at(px, py), d);
                        assert(step_jump(open, d, d, px, py, i));
                        assert(ahead_is(open, d, px, py, i));
                        if ahead_is(open, d, px, py, 0) {
                            lemma_ahead_unique(open, d, px, py, 0, i);
                        }
                        if ahead_is(open, d, px, py, k) {
                            lemma_ahead_unique(open, d, px, py, k, i);
                        }
                    }
                    return Some(jump);
                }
                proof {
                    let k = dist_in(self.jumps_at(px, py), d);
                    if step_jump(open, d, d, px, py, i) {
                        assert(k == i);
                        assert(ahead_is(open, d, px, py, k));
                    } else {
                        assert(!step_open(open, d, px, py, i));
                        assert(ahead_is(open, d, px, py, 0));
                    }
                }
                None
            },
            None => {
                if self.is_axis_jump(dir, xy) {
                    proof {
                        assert(step_jump(open, d, d, px, py, i));
                        assert(ahead_is(open, d, px, py, i));
                        if ahead_is(open, d, px, py, 0) {
                            lemma_ahead_unique(open, d, px, py, 0, i);
                        }
                    }
                    return Some(xy);
                }
                proof {
                    assert(!step_open(open, d, px, py, i));
                    assert(ahead_is(open, d, px, py, 0));
                }
                None
            },
        }
    }

    /// Checks the jump distances of every tile in the four axis directions
    /// (see `verify_jump`), column by column; answers a tile that fails with
    /// the jump point its check answers.
    pub fn verify_grid(&self) -> (r: Option<((isize, isize), (isize, isize))>)
        requires
            self.wf(),
        ensures
            r is None <==> forall|x: int, y: int, d: int|
                self.inside(x, y) && is_axis_dir(d) ==> #[trigger] self.jump_checks(d, x, y),
            r matches Some(f) ==> self.inside(f.0.0 as int, f.0.1 as int) && !(self.jump_checks(
                0,
                f.0.0 as int,
                f.0.1 as int,
            ) && self.jump_checks(4, f.0.0 as int, f.0.1 as int) && self.jump_checks(2, f.0.0 as int, f.0.1 as int)
                && self.jump_checks(6, f.0.0 as int, f.0.1 as int)),
    {
        let mut x: isize = 0;
        while x < self.w
            invariant
                self.wf(),
                0 <= x <= self.width(),
                forall|i: int, j: int, d: int|
                    0 <= i < x && 0 <= j < self.height() && is_axis_dir(d) ==> #[trigger] self.jump_checks(d, i, j),
            decreases self.width() - x,
        {
            let mut y: isize = 0;
            while y < self.h
                invariant
                    self.wf(),
                    0 <= x < self.width(),
                    0 <= y <= self.height(),
                    forall|i: int, j: int, d: int|
                        (0 <= i < x && 0 <= j < self.height() || i == x && 0 <= j < y) && is_axis_dir(d)
                            ==> #[trigger] self.jump_checks(d, i, j),
                decreases self.height() - y,
            {
                let xy = (x, y);
                if let Some(jump) = self.verify_jump(xy, Direction(NORTH)) {
                    return Some((xy, jump));
                }
                if let Some(jump) = self.verify_jump(xy, Direction(SOUTH)) {
                    return Some((xy, jump));
                }
                if let Some(jump) = self.verify_jump(xy, Direction(EAST)) {
                    return Some((xy, jump));
                }
                if let Some(jump) = self.verify_jump(xy, Direction(WEST)) {
                    return Some((xy, jump));
                }
                y = y + 1;
            }
            x = x + 1;
        }
        None
    }

    /// The jump point that starting or expanding a search lists along an
    /// axis `d` from a tile of the grid: there is one exactly when the tile
    /// is open and, walking from it along `d` over open tiles that are no
    /// jump points, a jump point for `d` comes before any closed tile or the
    /// edge; and it is that first jump point, listed heading `d`.
    pub proof fn lemma_jump_entry_ahead(&self, xy: (isize, isize), d: int)
        requires
            self.wf(),
            self.jumps_ok(),
            is_axis_dir(d),
            self.inside(xy.0 as int, xy.1 as int),
        ensures
            self.jump_entry(xy, d).len() <= 1,
            (self.jump_entry(xy, d).len() == 1) <==> (self.open_at(xy.0 as int, xy.1 as int) && exists|k: int|
                k >= 1 && #[trigger] clear_walk(self.open_fn(), d, d, xy.0 as int, xy.1 as int, k) && step_jump(
                    self.open_fn(),
                    d,
                    d,
                    xy.0 as int,
                    xy.1 as int,
                    k,
                )),
            self.jump_entry(xy, d).len() == 1 ==> self.jump_entry(xy, d)[0].1 == Direction(d as isize)
                && exists|k: int|
                k >= 1 && #[trigger] clear_walk(self.open_fn(), d, d, xy.0 as int, xy.1 as int, k) && step_jump(
                    self.open_fn(),
                    d,
                    d,
                    xy.0 as int,
                    xy.1 as int,
                    k,
                ) && self.jump_entry(xy, d)[0].0.0 == steps(d, xy.0 as int, xy.1 as int, k).0
                    && self.jump_entry(xy, d)[0].0.1 == steps(d, xy.0 as int, xy.1 as int, k).1,
    {
        let x = xy.0 as int;
        let y = xy.1 as int;
        let open = self.open_fn();
        let k = dist_in(self.jumps_at(x, y), d);
        assert(dist_in((self.jumps_fn())(x, y), d) == k);
        if self.open_at(x, y) {
            assert(self.settled(d, x, y));
            assert(ahead_is(open, d, x, y, k));
            if k > 0 {
                let f = steps(d, x, y, k);
                assert(step_jump(open, d, d, x, y, k));
                assert(self.open_at(f.0, f.1));
                self.lemma_size();
                assert(clear_walk(open, d, d, x, y, k));
            } else {
                assert forall|k2: int| k2 >= 1 implies !(#[trigger] clear_walk(open, d, d, x, y, k2) && step_jump(
                    open,
                    d,
                    d,
                    x,
                    y,
                    k2,
                )) by {
                    if clear_walk(open, d, d, x, y, k2) && step_jump(open, d, d, x, y, k2) {
                        assert(ahead_is(open, d, x, y, k2));
                        lemma_ahead_unique(open, d, x, y, 0, k2);
                    }
                }
            }
        } else {
            assert(dist_in(self.jumps_at(x, y), d) == 0);
        }
    }

    /// Expanding a node heading diagonal `ne` turns around a wall: with the
    /// tile `w` behind the side `n` closed and `n` and the diagonal `nw`
    /// between them open, it searches on from `nw` heading `nw`; failing
    /// that, with the tile `s` behind the side `e` closed and `e` and the
    /// diagonal `se` open, it searches on from `se` heading `se`; otherwise
    /// it turns nowhere. (Sides as seen heading `ne`: `n` and `e` are one
    /// eighth of a turn to either side, `nw` and `se` a quarter, `w` and `s`
    /// three eighths.)
    pub proof fn lemma_diag_turn(&self, xy: (isize, isize), goal: (isize, isize), ne: int)
        requires
            ne == 1 || ne == 3 || ne == 5 || ne == 7,
        ensures
            ({
                let x = xy.0 as int;
                let y = xy.1 as int;
                let n = (ne + 7) % 8;
                let e = (ne + 1) % 8;
                let w = (ne + 5) % 8;
                let s = (ne + 3) % 8;
                let nw = (ne + 6) % 8;
                let se = (ne + 2) % 8;
                self.turn_spec(xy, goal, ne) == if !self.open_at(x + step_x(w), y + step_y(w)) && self.open_at(
                    x + step_x(n),
                    y + step_y(n),
                ) && self.open_at(x + step_x(nw), y + step_y(nw)) {
                    self.found(self.next_of(xy, nw), goal, nw)
                } else if !self.open_at(x + step_x(s), y + step_y(s)) && self.open_at(x + step_x(e), y + step_y(e))
                    && self.open_at(x + step_x(se), y + step_y(se)) {
                    self.found(self.next_of(xy, se), goal, se)
                } else {
                    Seq::<((isize, isize), Direction)>::empty()
                }
            }),
    {
        assert(rotate_cc_spec(1, ne) == (ne + 7) % 8 && rotate_c_spec(1, ne) == (ne + 1) % 8 && rotate_cc_spec(3, ne)
            == (ne + 5) % 8 && rotate_c_spec(3, ne) == (ne + 3) % 8 && rotate_cc_spec(2, ne) == (ne + 6) % 8
            && rotate_c_spec(2, ne) == (ne + 2) % 8);
    }

    /// Starting a search lists, for each of the eight compass directions
    /// `d`, what searching that way finds: the diagonal search for a
    /// diagonal `d`, the jump point kept along `d` for an axis `d`; every
    /// entry it lists heads one of the eight directions.
    pub proof fn lemma_init_directions(&self, xy: (isize, isize), goal: (isize, isize))
        ensures
            forall|x: ((isize, isize), Direction)|
                #[trigger] self.init_spec(xy, goal).contains(x) <==> (0 <= x.1.0 < 8 && if x.1.0 % 2 == 1 {
                    self.init_diag_spec(xy, goal, x.1.0 as int).contains(x)
                } else {
                    self.jump_entry(xy, x.1.0 as int).contains(x)
                }),
    {
        reveal(PathGrid::init_spec);
        let a1 = self.init_diag_spec(xy, goal, 1);
        let a3 = self.init_diag_spec(xy, goal, 3);
        let a5 = self.init_diag_spec(xy, goal, 5);
        let a7 = self.init_diag_spec(xy, goal, 7);
        let j0 = self.jump_entry(xy, 0);
        let j2 = self.jump_entry(xy, 2);
        let j4 = self.jump_entry(xy, 4);
        let j6 = self.jump_entry(xy, 6);
        reveal(PathGrid::init_diag_spec);
        assert forall|x: ((isize, isize), Direction)| #[trigger] self.init_spec(xy, goal).contains(x) <==> (0 <= x.1.0
            < 8 && if x.1.0 % 2 == 1 {
            self.init_diag_spec(xy, goal, x.1.0 as int).contains(x)
        } else {
            self.jump_entry(xy, x.1.0 as int).contains(x)
        }) by {
            lemma_seq_concat_contains(a1, a3, x);
            lemma_seq_concat_contains(a1 + a3, a5, x);
            lemma_seq_concat_contains(a1 + a3 + a5, a7, x);
            lemma_seq_concat_contains(a1 + a3 + a5 + a7, j0, x);
            lemma_seq_concat_contains(a1 + a3 + a5 + a7 + j0, j2, x);
            lemma_seq_concat_contains(a1 + a3 + a5 + a7 + j0 + j2, j4, x);
            lemma_seq_concat_contains(a1 + a3 + a5 + a7 + j0 + j2 + j4, j6, x);
            assert(self.init_spec(xy, goal) == a1 + a3 + a5 + a7 + j0 + j2 + j4 + j6);
            let ds: Seq<int> = seq![1, 3, 5, 7];
            assert forall|k: int| 0 <= k < 4 implies (#[trigger] self.init_diag_spec(xy, goal, ds[k])).contains(x)
                ==> x.1 == Direction(ds[k] as isize) by {
                let pc = self.init_diag_spec(xy, goal, ds[k]);
                if pc.contains(x) {
                    let i = choose|i: int| 0 <= i < pc.len() && pc[i] == x;
                    assert(pc[i].1 == Direction(ds[k] as isize));
                }
            }
            assert(ds[0] == 1 && ds[1] == 3 && ds[2] == 5 && ds[3] == 7);
            let es: Seq<int> = seq![0, 2, 4, 6];
            assert forall|k: int| 0 <= k < 4 implies (#[trigger] self.jump_entry(xy, es[k])).contains(x) ==> x.1
                == Direction(es[k] as isize) by {
                let pc = self.jump_entry(xy, es[k]);
                if pc.contains(x) {
                    let i = choose|i: int| 0 <= i < pc.len() && pc[i] == x;
                    assert(pc[i].1 == Direction(es[k] as isize));
                }
            }
            assert(es[0] == 0 && es[1] == 2 && es[2] == 4 && es[3] == 6);
        }
    }

    /// Starting a search at a tile of the grid tries a diagonal `d` only when
    /// at least one of the two tiles beside that diagonal step, `(x + dx, y)`
    /// and `(x, y + dy)`, is open: then it lists, heading `d`, the tile where
    /// the diagonal search from the diagonal neighbour stops, if it stops.
    pub proof fn lemma_init_diagonal(&self, xy: (isize, isize), goal: (isize, isize), d: int)
        requires
            self.wf(),
            self.inside(xy.0 as int, xy.1 as int),
            d == 1 || d == 3 || d == 5 || d == 7,
        ensures
            self.init_diag_spec(xy, goal, d) == if self.open_at(xy.0 + step_x(d), xy.1 as int) || self.open_at(
                xy.0 as int,
                xy.1 + step_y(d),
            ) {
                match self.search_from(self.next_of(xy, d), goal, d) {
                    Some(q) => seq![(q, Direction(d as isize))],
                    None => Seq::<((isize, isize), Direction)>::empty(),
                }
            } else {
                Seq::<((isize, isize), Direction)>::empty()
            },
    {
        reveal(PathGrid::init_diag_spec);
        self.lemma_size();
        let p = self.next_of(xy, d);
        assert(p.0 as int == xy.0 + step_x(d));
        assert(p.1 as int == xy.1 + step_y(d));
        assert((self.open_next(p, rotate_cc_spec(3, d)) || self.open_next(p, rotate_c_spec(3, d))) == (self.open_at(
            xy.0 + step_x(d),
            xy.1 as int,
        ) || self.open_at(xy.0 as int, xy.1 + step_y(d))));
    }

    /// Expanding a node at `xy` heading along axis `n`, with the tile ahead
    /// open, lists a diagonal neighbour ahead (to either side of `n`) as a
    /// forced neighbour exactly when that diagonal tile is open and the side
    /// tile between it and `xy` is closed; with the tile ahead closed it
    /// lists nothing.
    pub proof fn lemma_axis_forced_neighbours(&self, xy: (isize, isize), n: int)
        requires
            is_axis_dir(n),
        ensures
            !self.open_at(xy.0 + step_x(n), xy.1 + step_y(n)) ==> self.expand_axis_spec(xy, n).len() == 0,
            forall|d: int|
                d == (n + 1) % 8 || d == (n + 7) % 8 ==> (#[trigger] self.expand_axis_spec(xy, n).contains(
                    (self.next_of(xy, d), Direction(d as isize)),
                ) <==> (self.open_at(xy.0 + step_x(n), xy.1 + step_y(n)) && self.open_at(
                    xy.0 + step_x(d),
                    xy.1 + step_y(d),
                ) && !self.open_at(xy.0 + step_x(d) - step_x(n), xy.1 + step_y(d) - step_y(n)))),
    {
        let e = rotate_c_spec(2, n);
        let w = rotate_cc_spec(2, n);
        let nw = rotate_cc_spec(1, n);
        let ne = rotate_c_spec(1, n);
        let j = self.jump_entry(xy, n);
        assert forall|d: int|
            d == (n + 1) % 8 || d == (n + 7) % 8 implies (#[trigger] self.expand_axis_spec(xy, n).contains(
                (self.next_of(xy, d), Direction(d as isize)),
            ) <==> (self.open_at(xy.0 + step_x(n), xy.1 + step_y(n)) && self.open_at(
                xy.0 + step_x(d),
                xy.1 + step_y(d),
            ) && !self.open_at(xy.0 + step_x(d) - step_x(n), xy.1 + step_y(d) - step_y(n)))) by {
            let x = (self.next_of(xy, d), Direction(d as isize));
            let full = self.expand_axis_spec(xy, n);
            if self.open_next(xy, n) {
                let b1 = full.subrange(j.len() as int, full.len() as int);
                assert(full.subrange(0, j.len() as int) =~= j);
                if full.contains(x) {
                    let i = choose|i: int| 0 <= i < full.len() && full[i] == x;
                    if i < j.len() {
                        assert(j[i].1 == Direction(n as isize));
                        assert(false);
                    }
                }
                if j.len() > 0 {
                    assert(j[0].1 == Direction(n as isize));
                }
                if d == nw && self.open_next(xy, nw) && !self.open_next(xy, w) {
                    assert(full[j.len() as int] == x);
                }
                if d == ne && self.open_next(xy, ne) && !self.open_next(xy, e) {
                    let k = full.len() - 1;
                    assert(full[k] == x);
                }
            } else {
                assert(full.len() == 0);
            }
        }
    }

    /// Whether every tile listed in `s` is an open tile of the grid.
    pub open spec fn all_open(&self, s: Seq<((isize, isize), Direction)>) -> bool {
        forall|i: int| 0 <= i < s.len() ==> self.open_at(#[trigger] s[i].0.0 as int, s[i].0.1 as int)
    }

    proof fn lemma_all_open_add(&self, a: Seq<((isize, isize), Direction)>, b: Seq<((isize, isize), Direction)>)
        requires
            self.all_open(a),
            self.all_open(b),
        ensures
            self.all_open(a + b),
    {
        assert forall|i: int| 0 <= i < (a + b).len() implies self.open_at(
            #[trigger] (a + b)[i].0.0 as int,
            (a + b)[i].0.1 as int,
        ) by {
            if i < a.len() {
                assert((a + b)[i] == a[i]);
            } else {
                assert((a + b)[i] == b[i - a.len()]);
            }
        }
    }

    /// The tile next to `p` that way, listed alone when it is open.
    proof fn lemma_next_open(&self, p: (isize, isize), d: int, dir: Direction)
        requires
            self.wf(),
            is_compass(d),
        ensures
            self.open_next(p, d) ==> self.all_open(seq![(self.next_of(p, d), dir)]),
    {
        if self.open_next(p, d) {
            let x = p.0 + step_x(d);
            let y = p.1 + step_y(d);
            assert(self.open_at(x, y));
            self.lemma_size();
            assert(self.next_of(p, d).0 as int == x);
            assert(self.next_of(p, d).1 as int == y);
            assert(seq![(self.next_of(p, d), dir)][0] == (self.next_of(p, d), dir));
        }
    }

    /// Starting or expanding a search lists only open tiles of the grid,
    /// once the jump distances agree with the tiles: so every tile a search
    /// over the grid reaches through the library's expansion is open.
    pub proof fn lemma_expansion_open(&self, xy: (isize, isize), goal: (isize, isize), d: int)
        requires
            self.wf(),
            self.jumps_ok(),
            self.inside(xy.0 as int, xy.1 as int),
            is_compass(d),
        ensures
            self.all_open(self.init_spec(xy, goal)),
            is_axis_dir(d) ==> self.all_open(self.expand_axis_spec(xy, d)),
            !is_axis_dir(d) ==> self.all_open(self.expand_diag_spec(xy, goal, d)),
    {
        let e: Seq<((isize, isize), Direction)> = seq![];
        assert(self.all_open(e));
        reveal(PathGrid::init_spec);
        reveal(PathGrid::init_diag_spec);
        assert forall|k: int| #![trigger self.init_diag_spec(xy, goal, k)]
            k == 1 || k == 3 || k == 5 || k == 7 implies self.all_open(self.init_diag_spec(xy, goal, k)) by {
            self.lemma_search_stops_open(self.next_of(xy, k), goal, k);
        }
        self.lemma_jump_entry_open(xy, 0);
        self.lemma_jump_entry_open(xy, 2);
        self.lemma_jump_entry_open(xy, 4);
        self.lemma_jump_entry_open(xy, 6);
        let a1 = self.init_diag_spec(xy, goal, 1);
        let a3 = self.init_diag_spec(xy, goal, 3);
        let a5 = self.init_diag_spec(xy, goal, 5);
        let a7 = self.init_diag_spec(xy, goal, 7);
        self.lemma_all_open_add(a1, a3);
        self.lemma_all_open_add(a1 + a3, a5);
        self.lemma_all_open_add(a1 + a3 + a5, a7);
        self.lemma_all_open_add(a1 + a3 + a5 + a7, self.jump_entry(xy, 0));
        self.lemma_all_open_add(a1 + a3 + a5 + a7 + self.jump_entry(xy, 0), self.jump_entry(xy, 2));
        self.lemma_all_open_add(
            a1 + a3 + a5 + a7 + self.jump_entry(xy, 0) + self.jump_entry(xy, 2),
            self.jump_entry(xy, 4),
        );
        self.lemma_all_open_add(
            a1 + a3 + a5 + a7 + self.jump_entry(xy, 0) + self.jump_entry(xy, 2) + self.jump_entry(xy, 4),
            self.jump_entry(xy, 6),
        );
        if is_axis_dir(d) {
            let n = d;
            let e2 = rotate_c_spec(2, n);
            let w = rotate_cc_spec(2, n);
            let nw = rotate_cc_spec(1, n);
            let ne = rotate_c_spec(1, n);
            if self.open_next(xy, n) {
                self.lemma_jump_entry_open(xy, n);
                self.lemma_next_open(xy, nw, Direction(nw as isize));
                self.lemma_next_open(xy, ne, Direction(ne as isize));
                let b1 = if self.open_next(xy, nw) && !self.open_next(xy, w) {
                    seq![(self.next_of(xy, nw), Direction(nw as isize))]
                } else {
                    e
                };
                let b2 = if self.open_next(xy, ne) && !self.open_next(xy, e2) {
                    seq![(self.next_of(xy, ne), Direction(ne as isize))]
                } else {
                    e
                };
                self.lemma_all_open_add(self.jump_entry(xy, n), b1);
                self.lemma_all_open_add(self.jump_entry(xy, n) + b1, b2);
                assert(self.expand_axis_spec(xy, d) == self.jump_entry(xy, n) + b1 + b2);
            }
        } else {
            let ne = d;
            let n = rotate_cc_spec(1, ne);
            let e1 = rotate_c_spec(1, ne);
            let nw = rotate_cc_spec(2, ne);
            let se = rotate_c_spec(2, ne);
            self.lemma_search_stops_open(self.next_of(xy, nw), goal, nw);
            self.lemma_search_stops_open(self.next_of(xy, se), goal, se);
            self.lemma_search_stops_open(self.next_of(xy, ne), goal, ne);
            let t = self.turn_spec(xy, goal, ne);
            assert(self.all_open(t));
            self.lemma_jump_entry_open(xy, n);
            self.lemma_jump_entry_open(xy, e1);
            self.lemma_all_open_add(t, self.jump_entry(xy, n));
            self.lemma_all_open_add(t + self.jump_entry(xy, n), self.jump_entry(xy, e1));
            self.lemma_all_open_add(
                t + self.jump_entry(xy, n) + self.jump_entry(xy, e1),
                self.found(self.next_of(xy, ne), goal, ne),
            );
        }
    }

    /// A diagonal search stops only on an open tile.
    proof fn lemma_search_stops_open(&self, p: (isize, isize), goal: (isize, isize), d: int)
        requires
            self.wf(),
        ensures
            self.search_from(p, goal, d) matches Some(q) ==> self.open_at(q.0 as int, q.1 as int),
            self.all_open(self.found(p, goal, d)),
    {
        lemma_walk_stops_open(
            self.open_fn(),
            self.jumps_fn(),
            p.0 as int,
            p.1 as int,
            (goal.0 as int, goal.1 as int),
            d,
            steps_out(d, p.0 as int, p.1 as int, self.width(), self.height()) as nat,
        );
    }

    /// The jump point that a tile of the grid keeps in an axis direction is
    /// an open tile.
    proof fn lemma_jump_entry_open(&self, p: (isize, isize), d: int)
        requires
            self.wf(),
            self.jumps_ok(),
            is_axis_dir(d),
            self.inside(p.0 as int, p.1 as int),
        ensures
            self.all_open(self.jump_entry(p, d)),
    {
        let k = dist_in((self.jumps_fn())(p.0 as int, p.1 as int), d);
        if k > 0 {
            assert(dist_in(self.jumps_at(p.0 as int, p.1 as int), d) == k);
            if self.inside(p.0 as int, p.1 as int) && self.open_at(p.0 as int, p.1 as int) {
                assert(self.settled(d, p.0 as int, p.1 as int));
                assert(step_jump(self.open_fn(), d, d, p.0 as int, p.1 as int, k));
                let f = steps(d, p.0 as int, p.1 as int, k);
                assert(self.open_at(f.0, f.1));
                assert(0 <= f.0 < self.width() && 0 <= f.1 < self.height());
                self.lemma_size();
            } else {
                assert(dist_in(self.jumps_at(p.0 as int, p.1 as int), d) == 0);
            }
        }
    }

    /// When the jump distances agree with the tiles, the grid's own check
    /// finds nothing wrong.
    pub proof fn lemma_jumps_ok_passes_check(&self)
        requires
            self.jumps_ok(),
        ensures
            forall|x: int, y: int, d: int| self.inside(x, y) && is_axis_dir(d) ==> #[trigger] self.jump_checks(d, x, y),
    {
        assert forall|x: int, y: int, d: int| self.inside(x, y) && is_axis_dir(d) implies #[trigger] self.jump_checks(
            d,
            x,
            y,
        ) by {
            assert(self.open_at(x, y) ==> self.settled(d, x, y));
        }
    }

    /// Brings up to date the jump distances in axis direction `dir` of the
    /// run of open tiles that holds `xy`: from the jump point behind it (or
    /// the last open tile behind it) up to the next jump point ahead.
    fn correct_jump(&mut self, dir: Direction, xy: (isize, isize))
        requires
            old(self).wf(),
            is_axis_dir(dir.0 as int),
            old(self).inside(xy.0 as int, xy.1 as int),
        ensures
            final(self).wf(),
            final(self).width() == old(self).width(),
            final(self).height() == old(self).height(),
            final(self).round() == old(self).round(),
            final(self).expanded() == old(self).expanded(),
            forall|x: int, y: int| #[trigger] final(self).state(x, y) == old(self).state(x, y),
            forall|x: int, y: int| #[trigger] final(self).closed_mark(x, y) == old(self).closed_mark(x, y),
            forall|x: int, y: int|
                old(self).inside(x, y) && !old(self).state(x, y) ==> #[trigger] final(self).jumps_at(x, y)
                    == old(self).jumps_at(x, y),
            old(self).refined_by(*final(self)),
            Self::back_covered(*final(self), dir.0 as int, xy.0 as int, xy.1 as int),
    {
        let ghost d = dir.0 as int;
        let ghost x = xy.0 as int;
        let ghost y = xy.1 as int;
        let ghost open = old(self).open_fn();
        let back = rotate_c(Degree(4), dir);
        let ghost b = back.0 as int;
        let (found, vec) = self.accum(dir, back, xy);
        let ghost m = vec@.len() as int;
        let ghost full = vec@;
        proof {
            Self::lemma_accum_walk(*self, d, b, x, y, full, found is Some);
        }
        match found {
            Some(back_jump) => {
                proof {
                    assert(back_jump == full[m - 1]);
                    assert((full[m - 1].0 as int, full[m - 1].1 as int) == steps(b, x, y, m));
                }
                self.set_run_from(dir, back_jump);
                proof {
                    let jx = back_jump.0 as int;
                    let jy = back_jump.1 as int;
                    Self::lemma_same_open(*old(self), *self);
                    assert forall|k: int|
                        #![trigger clear_walk(self.open_fn(), d, b, x, y, k)]
                        k >= 1 && clear_walk(self.open_fn(), d, b, x, y, k) && step_open(self.open_fn(), b, x, y, k)
                            implies self.settled(d, steps(b, x, y, k).0, steps(b, x, y, k).1) by {
                        if k > m {
                            assert(step_open(open, b, x, y, m));
                        }
                        assert forall|t: int| 1 <= t < m - k + 1 implies #[trigger] step_open(open, d, jx, jy, t)
                            && !step_jump(open, d, d, jx, jy, t) by {
                            lemma_steps_back(d, x, y, m, t);
                            assert(step_open(open, b, x, y, m - t));
                        }
                        assert(clear_walk(open, d, d, jx, jy, m - k + 1));
                        lemma_steps_back(d, x, y, m, m - k);
                    }
                }
            },
            None => {
                let mut back_vec = vec;
                if let Some(last_xy) = back_vec.pop() {
                    proof {
                        assert(last_xy == full[m - 1]);
                        assert((full[m - 1].0 as int, full[m - 1].1 as int) == steps(b, x, y, m));
                    }
                    self.set_run_from(dir, last_xy);
                    proof {
                        let jx = last_xy.0 as int;
                        let jy = last_xy.1 as int;
                        Self::lemma_same_open(*old(self), *self);
                        assert forall|k: int|
                            #![trigger clear_walk(self.open_fn(), d, b, x, y, k)]
                            k >= 1 && clear_walk(self.open_fn(), d, b, x, y, k) && step_open(self.open_fn(), b, x, y, k)
                                implies self.settled(d, steps(b, x, y, k).0, steps(b, x, y, k).1) by {
                            if k > m {
                                assert(step_open(open, b, x, y, m + 1));
                            }
                            assert forall|t: int| 1 <= t < m - k + 1 implies #[trigger] step_open(open, d, jx, jy, t)
                                && !step_jump(open, d, d, jx, jy, t) by {
                                lemma_steps_back(d, x, y, m, t);
                                assert(step_open(open, b, x, y, m - t));
                            }
                            assert(clear_walk(open, d, d, jx, jy, m - k + 1));
                            lemma_steps_back(d, x, y, m, m - k);
                        }
                    }
                } else {
                    proof {
                        Self::lemma_same_open(*old(self), *self);
                        assert forall|k: int|
                            #![trigger clear_walk(self.open_fn(), d, b, x, y, k)]
                            k >= 1 && clear_walk(self.open_fn(), d, b, x, y, k) && step_open(self.open_fn(), b, x, y, k)
                                implies self.settled(d, steps(b, x, y, k).0, steps(b, x, y, k).1) by {
                            if k > 1 {
                                assert(step_open(open, b, x, y, 1));
                            }
                        }
                    }
                }
            },
        }
    }

    /// Every open tile that a walk back from `(qx, qy)` against axis
    /// direction `d` reaches over open tiles that are not jump points for `d`
    /// keeps its distance to the first jump point ahead.
    pub open spec fn back_covered(g: PathGrid, d: int, qx: int, qy: int) -> bool {
        let b = rotate_c_spec(4, d);
        forall|k: int|
            #![trigger clear_walk(g.open_fn(), d, b, qx, qy, k)]
            k >= 1 && clear_walk(g.open_fn(), d, b, qx, qy, k) && step_open(g.open_fn(), b, qx, qy, k)
                ==> g.settled(d, steps(b, qx, qy, k).0, steps(b, qx, qy, k).1)
    }

    /// Opens (`open_or_close`) or closes every tile of the rectangle with
    /// corners `p0` and `p1` that lies inside the grid (closing also clears
    /// their jump distances), then brings up to date the jump distances in
    /// all four axis directions of the runs through every tile of the
    /// rectangle and the ring around it.
    pub fn change_area(&mut self, open_or_close: bool, p0: (isize, isize), p1: (isize, isize))
        requires
            old(self).wf(),
            isize::MIN < p0.0 < isize::MAX,
            isize::MIN < p0.1 < isize::MAX,
            isize::MIN < p1.0 < isize::MAX,
            isize::MIN < p1.1 < isize::MAX,
        ensures
            final(self).wf(),
            final(self).width() == old(self).width(),
            final(self).height() == old(self).height(),
            final(self).round() == old(self).round(),
            final(self).expanded() == old(self).expanded(),
            forall|x: int, y: int| #[trigger] final(self).closed_mark(x, y) == old(self).closed_mark(x, y),
            forall|x: int, y: int|
                #![trigger final(self).state(x, y)]
                old(self).inside(x, y) ==> final(self).state(x, y) == if in_box(p0, p1, x, y) {
                    open_or_close
                } else {
                    old(self).state(x, y)
                },
            !open_or_close ==> forall|x: int, y: int|
                old(self).inside(x, y) && in_box(p0, p1, x, y) ==> #[trigger] final(self).jumps_at(x, y)
                    == zero_jumps(),
            forall|x: int, y: int|
                old(self).inside(x, y) && !in_box(p0, p1, x, y) && !old(self).state(x, y)
                    ==> #[trigger] final(self).jumps_at(x, y) == old(self).jumps_at(x, y),
            old(self).jumps_ok() ==> final(self).jumps_ok(),
    {
        let (x0, y0) = p0;
        let (x1, y1) = p1;
        let x_max = if x0 < x1 { x1 } else { x0 };
        let y_max = if y0 < y1 { y1 } else { y0 };
        let x_min = if x0 < x1 { x0 } else { x1 };
        let y_min = if y0 < y1 { y0 } else { y1 };

        let mut y = y_min;
        loop
            invariant_except_break
                forall|i: int, j: int|
                    #![trigger self.state(i, j)]
                    old(self).inside(i, j) ==> self.state(i, j) == if in_box(p0, p1, i, j) && (j < y) {
                        open_or_close
                    } else {
                        old(self).state(i, j)
                    },
                !open_or_close ==> forall|i: int, j: int|
                    old(self).inside(i, j) && in_box(p0, p1, i, j) && (j < y) ==> #[trigger] self.jumps_at(i, j)
                        == zero_jumps(),
                forall|i: int, j: int|
                    old(self).inside(i, j) && (open_or_close || !(in_box(p0, p1, i, j) && (j < y)))
                        ==> #[trigger] self.jumps_at(i, j) == old(self).jumps_at(i, j),
            invariant
                self.wf(),
                self.width() == old(self).width(),
                self.height() == old(self).height(),
                self.round() == old(self).round(),
                self.expanded() == old(self).expanded(),
                forall|i: int, j: int| #[trigger] self.closed_mark(i, j) == old(self).closed_mark(i, j),
                x_min == (if p0.0 < p1.0 { p0.0 } else { p1.0 }),
                x_max == (if p0.0 < p1.0 { p1.0 } else { p0.0 }),
                y_min == (if p0.1 < p1.1 { p0.1 } else { p1.1 }),
                y_max == (if p0.1 < p1.1 { p1.1 } else { p0.1 }),
                isize::MIN < x_min,
                x_max < isize::MAX,
                isize::MIN < y_min,
                y_max < isize::MAX,
                y_min <= y <= y_max,
            ensures
                self.wf(),
                self.width() == old(self).width(),
                self.height() == old(self).height(),
                self.round() == old(self).round(),
                self.expanded() == old(self).expanded(),
                forall|i: int, j: int| #[trigger] self.closed_mark(i, j) == old(self).closed_mark(i, j),
                x_min == (if p0.0 < p1.0 { p0.0 } else { p1.0 }),
                x_max == (if p0.0 < p1.0 { p1.0 } else { p0.0 }),
                y_min == (if p0.1 < p1.1 { p0.1 } else { p1.1 }),
                y_max == (if p0.1 < p1.1 { p1.1 } else { p0.1 }),
                isize::MIN < x_min,
                x_max < isize::MAX,
                isize::MIN < y_min,
                y_max < isize::MAX,
                forall|i: int, j: int|
                    #![trigger self.state(i, j)]
                    old(self).inside(i, j) ==> self.state(i, j) == if in_box(p0, p1, i, j) && (true) {
                        open_or_close
                    } else {
                        old(self).state(i, j)
                    },
                !open_or_close ==> forall|i: int, j: int|
                    old(self).inside(i, j) && in_box(p0, p1, i, j) && (true) ==> #[trigger] self.jumps_at(i, j)
                        == zero_jumps(),
                forall|i: int, j: int|
                    old(self).inside(i, j) && (open_or_close || !(in_box(p0, p1, i, j) && (true)))
                        ==> #[trigger] self.jumps_at(i, j) == old(self).jumps_at(i, j),
            decreases y_max - y,
        {
            let mut x = x_min;
            loop
                invariant_except_break
                    forall|i: int, j: int|
                        #![trigger self.state(i, j)]
                        old(self).inside(i, j) ==> self.state(i, j) == if in_box(p0, p1, i, j) && (j < y || (j == y && i < x)) {
                            open_or_close
                        } else {
                            old(self).state(i, j)
                        },
                    !open_or_close ==> forall|i: int, j: int|
                        old(self).inside(i, j) && in_box(p0, p1, i, j) && (j < y || (j == y && i < x)) ==> #[trigger] self.jumps_at(i, j)
                            == zero_jumps(),
                    forall|i: int, j: int|
                        old(self).inside(i, j) && (open_or_close || !(in_box(p0, p1, i, j) && (j < y || (j == y && i < x))))
                            ==> #[trigger] self.jumps_at(i, j) == old(self).jumps_at(i, j),
                invariant
                    self.wf(),
                    self.width() == old(self).width(),
                    self.height() == old(self).height(),
                    self.round() == old(self).round(),
                    self.expanded() == old(self).expanded(),
                    forall|i: int, j: int| #[trigger] self.closed_mark(i, j) == old(self).closed_mark(i, j),
                    x_min == (if p0.0 < p1.0 { p0.0 } else { p1.0 }),
                    x_max == (if p0.0 < p1.0 { p1.0 } else { p0.0 }),
                    y_min == (if p0.1 < p1.1 { p0.1 } else { p1.1 }),
                    y_max == (if p0.1 < p1.1 { p1.1 } else { p0.1 }),
                    isize::MIN < x_min,
                    x_max < isize::MAX,
                    isize::MIN < y_min,
                    y_max < isize::MAX,
                    y_min <= y <= y_max,
                    x_min <= x <= x_max,
                ensures
                    self.wf(),
                    self.width() == old(self).width(),
                    self.height() == old(self).height(),
                    self.round() == old(self).round(),
                    self.expanded() == old(self).expanded(),
                    forall|i: int, j: int| #[trigger] self.closed_mark(i, j) == old(self).closed_mark(i, j),
                    x_min == (if p0.0 < p1.0 { p0.0 } else { p1.0 }),
                    x_max == (if p0.0 < p1.0 { p1.0 } else { p0.0 }),
                    y_min == (if p0.1 < p1.1 { p0.1 } else { p1.1 }),
                    y_max == (if p0.1 < p1.1 { p1.1 } else { p0.1 }),
                    isize::MIN < x_min,
                    x_max < isize::MAX,
                    isize::MIN < y_min,
                    y_max < isize::MAX,
                    forall|i: int, j: int|
                        #![trigger self.state(i, j)]
                        old(self).inside(i, j) ==> self.state(i, j) == if in_box(p0, p1, i, j) && (j <= y) {
                            open_or_close
                        } else {
                            old(self).state(i, j)
                        },
                    !open_or_close ==> forall|i: int, j: int|
                        old(self).inside(i, j) && in_box(p0, p1, i, j) && (j <= y) ==> #[trigger] self.jumps_at(i, j)
                            == zero_jumps(),
                    forall|i: int, j: int|
                        old(self).inside(i, j) && (open_or_close || !(in_box(p0, p1, i, j) && (j <= y)))
                            ==> #[trigger] self.jumps_at(i, j) == old(self).jumps_at(i, j),
                    y_min <= y <= y_max,
                decreases x_max - x,
            {
                let xy = (x, y);
                if self.inside_bounds(xy) {
                    if open_or_close {
                        self.set_state(xy, true);
                    } else {
                        self.set_state(xy, false);
                        self.set_jump_dist(Direction(0), xy, 0);
                        self.set_jump_dist(Direction(4), xy, 0);
                        self.set_jump_dist(Direction(2), xy, 0);
                        self.set_jump_dist(Direction(6), xy, 0);
                    }
                }
                if x == x_max {
                    break;
                }
                x = x + 1;
            }
            if y == y_max {
                break;
            }
            y = y + 1;
        }

        let ghost mid = *self;
        proof {
            Self::lemma_refined_refl(mid);
        }
        let mut y = y_min - 1;
        loop
            invariant_except_break
                forall|qx: int, qy: int, dd: int|
                    self.inside(qx, qy) && near_box(p0, p1, qx, qy) && is_axis_dir(dd) && qy < y
                        ==> #[trigger] Self::back_covered(*self, dd, qx, qy),
            invariant
                self.wf(),
                self.width() == old(self).width(),
                self.height() == old(self).height(),
                self.round() == old(self).round(),
                self.expanded() == old(self).expanded(),
                forall|i: int, j: int| #[trigger] self.closed_mark(i, j) == old(self).closed_mark(i, j),
                x_min == (if p0.0 < p1.0 { p0.0 } else { p1.0 }),
                x_max == (if p0.0 < p1.0 { p1.0 } else { p0.0 }),
                y_min == (if p0.1 < p1.1 { p0.1 } else { p1.1 }),
                y_max == (if p0.1 < p1.1 { p1.1 } else { p0.1 }),
                isize::MIN < x_min,
                x_max < isize::MAX,
                isize::MIN < y_min,
                y_max < isize::MAX,
                forall|i: int, j: int|
                    #![trigger self.state(i, j)]
                    old(self).inside(i, j) ==> self.state(i, j) == if in_box(p0, p1, i, j) {
                        open_or_close
                    } else {
                        old(self).state(i, j)
                    },
                !open_or_close ==> forall|i: int, j: int|
                    old(self).inside(i, j) && in_box(p0, p1, i, j) ==> #[trigger] self.jumps_at(i, j)
                        == zero_jumps(),
                forall|i: int, j: int|
                    old(self).inside(i, j) && !in_box(p0, p1, i, j) && !old(self).state(i, j)
                        ==> #[trigger] self.jumps_at(i, j) == old(self).jumps_at(i, j),
                y_min - 1 <= y <= y_max + 1,
                mid.width() == old(self).width(),
                mid.height() == old(self).height(),
                forall|i: int, j: int|
                    #![trigger mid.state(i, j)]
                    old(self).inside(i, j) ==> mid.state(i, j) == if in_box(p0, p1, i, j) {
                        open_or_close
                    } else {
                        old(self).state(i, j)
                    },
                !open_or_close ==> forall|i: int, j: int|
                    old(self).inside(i, j) && in_box(p0, p1, i, j) ==> #[trigger] mid.jumps_at(i, j)
                        == zero_jumps(),
                forall|i: int, j: int|
                    old(self).inside(i, j) && (open_or_close || !in_box(p0, p1, i, j)) ==> #[trigger] mid.jumps_at(i, j)
                        == old(self).jumps_at(i, j),
                mid.refined_by(*self),
            ensures
                forall|qx: int, qy: int, dd: int|
                    self.inside(qx, qy) && near_box(p0, p1, qx, qy) && is_axis_dir(dd)
                        ==> #[trigger] Self::back_covered(*self, dd, qx, qy),
            decreases y_max + 1 - y,
        {
            let mut x = x_min - 1;
            loop
                invariant_except_break
                    forall|qx: int, qy: int, dd: int|
                        self.inside(qx, qy) && near_box(p0, p1, qx, qy) && is_axis_dir(dd) && (qy < y || (qy == y
                            && qx < x)) ==> #[trigger] Self::back_covered(*self, dd, qx, qy),
                invariant
                    self.wf(),
                    self.width() == old(self).width(),
                    self.height() == old(self).height(),
                    self.round() == old(self).round(),
                    self.expanded() == old(self).expanded(),
                    forall|i: int, j: int| #[trigger] self.closed_mark(i, j) == old(self).closed_mark(i, j),
                    x_min == (if p0.0 < p1.0 { p0.0 } else { p1.0 }),
                    x_max == (if p0.0 < p1.0 { p1.0 } else { p0.0 }),
                    y_min == (if p0.1 < p1.1 { p0.1 } else { p1.1 }),
                    y_max == (if p0.1 < p1.1 { p1.1 } else { p0.1 }),
                    isize::MIN < x_min,
                    x_max < isize::MAX,
                    isize::MIN < y_min,
                    y_max < isize::MAX,
                    forall|i: int, j: int|
                        #![trigger self.state(i, j)]
                        old(self).inside(i, j) ==> self.state(i, j) == if in_box(p0, p1, i, j) {
                            open_or_close
                        } else {
                            old(self).state(i, j)
                        },
                    !open_or_close ==> forall|i: int, j: int|
                        old(self).inside(i, j) && in_box(p0, p1, i, j) ==> #[trigger] self.jumps_at(i, j)
                            == zero_jumps(),
                    forall|i: int, j: int|
                        old(self).inside(i, j) && !in_box(p0, p1, i, j) && !old(self).state(i, j)
                            ==> #[trigger] self.jumps_at(i, j) == old(self).jumps_at(i, j),
                    y_min - 1 <= y <= y_max + 1,
                    x_min - 1 <= x <= x_max + 1,
                    mid.width() == old(self).width(),
                    mid.height() == old(self).height(),
                    forall|i: int, j: int|
                        #![trigger mid.state(i, j)]
                        old(self).inside(i, j) ==> mid.state(i, j) == if in_box(p0, p1, i, j) {
                            open_or_close
                        } else {
                            old(self).state(i, j)
                        },
                    !open_or_close ==> forall|i: int, j: int|
                        old(self).inside(i, j) && in_box(p0, p1, i, j) ==> #[trigger] mid.jumps_at(i, j)
                            == zero_jumps(),
                    forall|i: int, j: int|
                        old(self).inside(i, j) && (open_or_close || !in_box(p0, p1, i, j)) ==> #[trigger] mid.jumps_at(i, j)
                            == old(self).jumps_at(i, j),
                    mid.refined_by(*self),
                ensures
                    forall|qx: int, qy: int, dd: int|
                        self.inside(qx, qy) && near_box(p0, p1, qx, qy) && is_axis_dir(dd) && qy <= y
                            ==> #[trigger] Self::back_covered(*self, dd, qx, qy),
                decreases x_max + 1 - x,
            {
                let xy = (x, y);
                if self.inside_bounds(xy) {
                    let ghost g0 = *self;
                    self.correct_jump(Direction(0), xy);
                    let ghost g1 = *self;
                    proof {
                        Self::lemma_refined_trans(mid, g0, g1);
                        Self::lemma_covered_persists(g0, g1);
                    }
                    self.correct_jump(Direction(4), xy);
                    let ghost g2 = *self;
                    proof {
                        Self::lemma_refined_trans(mid, g1, g2);
                        Self::lemma_covered_persists(g1, g2);
                    }
                    self.correct_jump(Direction(2), xy);
                    let ghost g3 = *self;
                    proof {
                        Self::lemma_refined_trans(mid, g2, g3);
                        Self::lemma_covered_persists(g2, g3);
                    }
                    self.correct_jump(Direction(6), xy);
                    proof {
                        let g4 = *self;
                        Self::lemma_refined_trans(mid, g3, g4);
                        Self::lemma_covered_persists(g3, g4);
                        assert(Self::back_covered(g4, 0, x as int, y as int));
                        assert(Self::back_covered(g4, 4, x as int, y as int));
                        assert(Self::back_covered(g4, 2, x as int, y as int));
                        assert(Self::back_covered(g4, 6, x as int, y as int));
                        assert forall|qx: int, qy: int, dd: int|
                            self.inside(qx, qy) && near_box(p0, p1, qx, qy) && is_axis_dir(dd) && (qy < y || (qy == y
                                && qx < x + 1)) implies #[trigger] Self::back_covered(*self, dd, qx, qy) by {
                            if qy == y && qx == x {
                            } else {
                                assert(Self::back_covered(g0, dd, qx, qy));
                                assert(Self::back_covered(g1, dd, qx, qy));
                                assert(Self::back_covered(g2, dd, qx, qy));
                                assert(Self::back_covered(g3, dd, qx, qy));
                            }
                        }
                    }
                } else {
                    proof {
                        assert forall|qx: int, qy: int, dd: int|
                            self.inside(qx, qy) && near_box(p0, p1, qx, qy) && is_axis_dir(dd) && (qy < y || (qy == y
                                && qx < x + 1)) implies #[trigger] Self::back_covered(*self, dd, qx, qy) by {
                            if qy == y && qx == x {
                                assert(false);
                            }
                        }
                    }
                }
                if x == x_max + 1 {
                    break;
                }
                x = x + 1;
            }
            if y == y_max + 1 {
                break;
            }
            y = y + 1;
        }
        proof {
            if old(self).jumps_ok() {
                Self::lemma_change_keeps_jumps(*old(self), mid, *self, p0, p1, open_or_close);
            }
        }
    }

    /// Opens tile `xy`.
    pub fn open_point(&mut self, xy: (isize, isize))
        requires
            old(self).wf(),
            isize::MIN < xy.0 < isize::MAX,
            isize::MIN < xy.1 < isize::MAX,
        ensures
            final(self).wf(),
            final(self).width() == old(self).width(),
            final(self).height() == old(self).height(),
            final(self).round() == old(self).round(),
            final(self).expanded() == old(self).expanded(),
            forall|x: int, y: int| #[trigger] final(self).closed_mark(x, y) == old(self).closed_mark(x, y),
            forall|x: int, y: int|
                #![trigger final(self).state(x, y)]
                old(self).inside(x, y) ==> final(self).state(x, y) == if in_box(xy, xy, x, y) {
                    true
                } else {
                    old(self).state(x, y)
                },
            !true ==> forall|x: int, y: int|
                old(self).inside(x, y) && in_box(xy, xy, x, y) ==> #[trigger] final(self).jumps_at(x, y)
                    == zero_jumps(),
            forall|x: int, y: int|
                old(self).inside(x, y) && !in_box(xy, xy, x, y) && !old(self).state(x, y)
                    ==> #[trigger] final(self).jumps_at(x, y) == old(self).jumps_at(x, y),
            old(self).jumps_ok() ==> final(self).jumps_ok(),
    {
        self.change_area(true, xy, xy);
    }

    /// Closes tile `xy`.
    pub fn close_point(&mut self, xy: (isize, isize))
        requires
            old(self).wf(),
            isize::MIN < xy.0 < isize::MAX,
            isize::MIN < xy.1 < isize::MAX,
        ensures
            final(self).wf(),
            final(self).width() == old(self).width(),
            final(self).height() == old(self).height(),
            final(self).round() == old(self).round(),
            final(self).expanded() == old(self).expanded(),
            forall|x: int, y: int| #[trigger] final(self).closed_mark(x, y) == old(self).closed_mark(x, y),
            forall|x: int, y: int|
                #![trigger final(self).state(x, y)]
                old(self).inside(x, y) ==> final(self).state(x, y) == if in_box(xy, xy, x, y) {
                    false
                } else {
                    old(self).state(x, y)
                },
            !false ==> forall|x: int, y: int|
                old(self).inside(x, y) && in_box(xy, xy, x, y) ==> #[trigger] final(self).jumps_at(x, y)
                    == zero_jumps(),
            forall|x: int, y: int|
                old(self).inside(x, y) && !in_box(xy, xy, x, y) && !old(self).state(x, y)
                    ==> #[trigger] final(self).jumps_at(x, y) == old(self).jumps_at(x, y),
            old(self).jumps_ok() ==> final(self).jumps_ok(),
    {
        self.change_area(false, xy, xy);
    }

    /// Opens the `w` by `h` area whose lower-left tile is `(x, y)`.
    pub fn open_area(&mut self, area: (isize, isize, isize, isize))
        requires
            old(self).wf(),
            isize::MIN < area.0 < isize::MAX,
            isize::MIN < area.1 < isize::MAX,
            isize::MIN < area.0 + area.2 - 1 < isize::MAX,
            isize::MIN < area.1 + area.3 - 1 < isize::MAX,
            isize::MIN <= area.0 + area.2 <= isize::MAX,
            isize::MIN <= area.1 + area.3 <= isize::MAX,
        ensures
            final(self).wf(),
            final(self).width() == old(self).width(),
            final(self).height() == old(self).height(),
            final(self).round() == old(self).round(),
            final(self).expanded() == old(self).expanded(),
            forall|x: int, y: int| #[trigger] final(self).closed_mark(x, y) == old(self).closed_mark(x, y),
            forall|x: int, y: int|
                #![trigger final(self).state(x, y)]
                old(self).inside(x, y) ==> final(self).state(x, y) == if in_box((area.0, area.1), ((area.0 + area.2 - 1) as isize, (area.1 + area.3 - 1) as isize), x, y) {
                    true
                } else {
                    old(self).state(x, y)
                },
            !true ==> forall|x: int, y: int|
                old(self).inside(x, y) && in_box((area.0, area.1), ((area.0 + area.2 - 1) as isize, (area.1 + area.3 - 1) as isize), x, y) ==> #[trigger] final(self).jumps_at(x, y)
                    == zero_jumps(),
            forall|x: int, y: int|
                old(self).inside(x, y) && !in_box((area.0, area.1), ((area.0 + area.2 - 1) as isize, (area.1 + area.3 - 1) as isize), x, y) && !old(self).state(x, y)
                    ==> #[trigger] final(self).jumps_at(x, y) == old(self).jumps_at(x, y),
            old(self).jumps_ok() ==> final(self).jumps_ok(),
    {
        let (x, y, w, h) = area;
        self.change_area(true, (x, y), (x + w - 1, y + h - 1));
    }

    /// Closes the `w` by `h` area whose lower-left tile is `(x, y)`.
    pub fn close_area(&mut self, area: (isize, isize, isize, isize))
        requires
            old(self).wf(),
            isize::MIN < area.0 < isize::MAX,
            isize::MIN < area.1 < isize::MAX,
            isize::MIN < area.0 + area.2 - 1 < isize::MAX,
            isize::MIN < area.1 + area.3 - 1 < isize::MAX,
            isize::MIN <= area.0 + area.2 <= isize::MAX,
            isize::MIN <= area.1 + area.3 <= isize::MAX,
        ensures
            final(self).wf(),
            final(self).width() == old(self).width(),
            final(self).height() == old(self).height(),
            final(self).round() == old(self).round(),
            final(self).expanded() == old(self).expanded(),
            forall|x: int, y: int| #[trigger] final(self).closed_mark(x, y) == old(self).closed_mark(x, y),
            forall|x: int, y: int|
                #![trigger final(self).state(x, y)]
                old(self).inside(x, y) ==> final(self).state(x, y) == if in_box((area.0, area.1), ((area.0 + area.2 - 1) as isize, (area.1 + area.3 - 1) as isize), x, y) {
                    false
                } else {
                    old(self).state(x, y)
                },
            !false ==> forall|x: int, y: int|
                old(self).inside(x, y) && in_box((area.0, area.1), ((area.0 + area.2 - 1) as isize, (area.1 + area.3 - 1) as isize), x, y) ==> #[trigger] final(self).jumps_at(x, y)
                    == zero_jumps(),
            forall|x: int, y: int|
                old(self).inside(x, y) && !in_box((area.0, area.1), ((area.0 + area.2 - 1) as isize, (area.1 + area.3 - 1) as isize), x, y) && !old(self).state(x, y)
                    ==> #[trigger] final(self).jumps_at(x, y) == old(self).jumps_at(x, y),
            old(self).jumps_ok() ==> final(self).jumps_ok(),
    {
        let (x, y, w, h) = area;
        self.change_area(false, (x, y), (x + w - 1, y + h - 1));
    }
    /// Whether the straight line from `p0` to `p1`, traced tile by tile,
    /// crosses only open tiles and never squeezes diagonally between two
    /// closed ones.
    pub fn is_line_open(&self, p0: (isize, isize), p1: (isize, isize)) -> (r: bool)
        requires
            self.wf(),
            abs_diff(p0.0 as int, p1.0 as int) <= isize::MAX / 2,
            abs_diff(p0.1 as int, p1.1 as int) <= isize::MAX / 2,
        ensures
            r == line_open_spec(self.open_fn(), (p0.0 as int, p0.1 as int), (p1.0 as int, p1.1 as int)),
    {
        let (mut x0, mut y0) = p0;
        let (x1, y1) = p1;
        let dx = if x0 > x1 { x0 - x1 } else { x1 - x0 };
        let dy = if y0 > y1 { y0 - y1 } else { y1 - y0 };
        let sx: isize = if x0 < x1 { 1 } else { -1 };
        let sy: isize = if y0 < y1 { 1 } else { -1 };
        let mut err: isize = if dx > dy { dx / 2 } else { -(dy / 2) };
        let ghost goal = (x1 as int, y1 as int);
        let ghost d = (dx as int, dy as int);
        let ghost s = (sx as int, sy as int);
        let ghost err0 = err as int;
        let ghost full = line_open_spec(self.open_fn(), (p0.0 as int, p0.1 as int), goal);
        proof {
            assert(d.1 * d.0 == d.0 * d.1) by (nonlinear_arith);
        }
        loop
            invariant
                self.wf(),
                full == line_open_spec(self.open_fn(), (p0.0 as int, p0.1 as int), (p1.0 as int, p1.1 as int)),
                goal == (x1 as int, y1 as int),
                d == (dx as int, dy as int),
                s == (sx as int, sy as int),
                0 <= dx <= isize::MAX / 2,
                0 <= dy <= isize::MAX / 2,
                trace_inv(x0 as int, y0 as int, err as int, goal, d, s, err0),
                clear_from(self.open_fn(), x0 as int, y0 as int, err as int, goal, d, s,
                    trace_measure(x0 as int, y0 as int, goal, s) as nat) == full,
            decreases trace_measure(x0 as int, y0 as int, goal, s),
        {
            let ghost m = trace_measure(x0 as int, y0 as int, goal, s);
            if !self.is_open((x0, y0)) {
                return false;
            }
            if x0 == x1 && y0 == y1 {
                return true;
            }
            proof {
                lemma_trace_step(x0 as int, y0 as int, err as int, goal, d, s, err0);
            }
            let ghost n = trace_step(x0 as int, y0 as int, err as int, d, s);
            let err2 = 2 * err;
            if err2 > -dx && err2 < dy && !self.is_open((x0 + sx, y0)) && !self.is_open((x0, y0 + sy)) {
                return false;
            }
            if err2 > -dx {
                err = err - dy;
                x0 = x0 + sx;
            }
            if err2 < dy {
                err = err + dx;
                y0 = y0 + sy;
            }
            proof {
                assert((x0 as int, y0 as int, err as int) == n);
                lemma_clear_fuel(self.open_fn(), n.0, n.1, n.2, goal, d, s, err0, (m - 1) as nat,
                    trace_measure(n.0, n.1, goal, s) as nat);
            }
        }
    }

    /// Whether `start` and `goal` are the same tile, or lie on one row or
    /// column with every tile strictly between them open.
    pub fn lines_up(&self, start: (isize, isize), goal: (isize, isize)) -> (r: bool)
        requires
            self.wf(),
        ensures
            r == lines_up_with(self.open_fn(), start.0 as int, start.1 as int, goal.0 as int, goal.1 as int),
    {
        let (sx, sy) = start;
        let (gx, gy) = goal;

        if sx != gx && sy != gy {
            return false;
        }
        if sx == gx && sy == gy {
            return true;
        }
        if gy > sy {
            let mut y = sy;
            loop
                invariant
                    self.wf(),
                    start == (sx, sy),
                    goal == (gx, gy),
                    sx == gx,
                    sy <= y < gy,
                    forall|k: int| sy < k <= y ==> #[trigger] self.open_at(sx as int, k),
                decreases gy - y,
            {
                y = y + 1;
                if y == gy {
                    return true;
                }
                if !self.is_open((sx, y)) {
                    assert(!(self.open_fn())(sx as int, y as int));
                    return false;
                }
            }
        } else if gy < sy {
            let mut y = sy;
            loop
                invariant
                    self.wf(),
                    start == (sx, sy),
                    goal == (gx, gy),
                    sx == gx,
                    gy < y <= sy,
                    forall|k: int| y <= k < sy ==> #[trigger] self.open_at(sx as int, k),
                decreases y - gy,
            {
                y = y - 1;
                if y == gy {
                    return true;
                }
                if !self.is_open((sx, y)) {
                    assert(!(self.open_fn())(sx as int, y as int));
                    return false;
                }
            }
        } else if gx > sx {
            let mut x = sx;
            loop
                invariant
                    self.wf(),
                    start == (sx, sy),
                    goal == (gx, gy),
                    sy == gy,
                    sx <= x < gx,
                    forall|k: int| sx < k <= x ==> #[trigger] self.open_at(k, sy as int),
                decreases gx - x,
            {
                x = x + 1;
                if x == gx {
                    return true;
                }
                if !self.is_open((x, sy)) {
                    assert(!(self.open_fn())(x as int, sy as int));
                    return false;
                }
            }
        } else {
            let mut x = sx;
            loop
                invariant
                    self.wf(),
                    start == (sx, sy),
                    goal == (gx, gy),
                    sy == gy,
                    gx < x <= sx,
                    forall|k: int| x <= k < sx ==> #[trigger] self.open_at(k, sy as int),
                decreases x - gx,
            {
                x = x - 1;
                if x == gx {
                    return true;
                }
                if !self.is_open((x, sy)) {
                    assert(!(self.open_fn())(x as int, sy as int));
                    return false;
                }
            }
        }
    }
    /// Searches diagonally from `xy` in direction `ne` (see
    /// `search_diag_spec`); answers the tile found with the direction.
    pub fn search_diag(&self, xy: (isize, isize), goal: (isize, isize), ne: Direction) -> (r: Option<((isize, isize), Direction)>)
        requires
            self.wf(),
            is_compass(ne.0 as int),
            !is_axis_dir(ne.0 as int),
            -1 <= xy.0 <= self.width(),
            -1 <= xy.1 <= self.height(),
        ensures
            r is None <==> self.search_from(xy, goal, ne.0 as int) is None,
            r matches Some(f) ==> Some(f.0) == self.search_from(xy, goal, ne.0 as int) && f.1 == ne,
    {
        let n = rotate_cc(Degree(1), ne);
        let e = rotate_c(Degree(1), ne);
        let mut cur = xy;
        loop
            invariant
                self.wf(),
                is_compass(ne.0 as int),
                !is_axis_dir(ne.0 as int),
                n.0 == rotate_cc_spec(1, ne.0 as int),
                e.0 == rotate_c_spec(1, ne.0 as int),
                -1 <= cur.0 <= self.width(),
                -1 <= cur.1 <= self.height(),
                self.search_from(cur, goal, ne.0 as int) == self.search_from(xy, goal, ne.0 as int),
            decreases steps_out(ne.0 as int, cur.0 as int, cur.1 as int, self.width(), self.height()),
        {
            proof {
                reveal(diag_walk);
            }
            let n_xy = next_to(n, cur);
            let e_xy = next_to(e, cur);

            if !self.is_open(cur) || (!self.is_open(n_xy) && !self.is_open(e_xy)) {
                return None;
            }
            if self.get_jump(n, cur).is_some() || self.get_jump(e, cur).is_some() || self.is_diag_jump(
                ne,
                cur,
            ) || self.lines_up(cur, goal) {
                return Some((cur, ne));
            }
            cur = next_to(ne, cur);
        }
    }

    /// Adds the tile found, if any, to the expansion.
    fn push_option(&mut self, opt: Option<((isize, isize), Direction)>)
        ensures
            final(self).same_grid(*old(self)),
            final(self).expanded() == old(self).expanded() + match opt {
                Some(a) => seq![a],
                None => seq![],
            },
    {
        if let Some(a) = opt {
            self.expand.push(a);
        }
    }

    /// Adds to the expansion what a node at `xy` heading in axis direction
    /// `n` finds.
    fn expand_axis(&mut self, xy: (isize, isize), n: Direction)
        requires
            old(self).wf(),
            is_axis_dir(n.0 as int),
            old(self).inside(xy.0 as int, xy.1 as int),
        ensures
            final(self).same_grid(*old(self)),
            final(self).expanded() == old(self).expanded() + old(self).expand_axis_spec(xy, n.0 as int),
    {
        let e = rotate_c(Degree(2), n);
        let w = rotate_cc(Degree(2), n);
        let nw = rotate_cc(Degree(1), n);
        let ne = rotate_c(Degree(1), n);
        let n_xy = next_to(n, xy);
        let e_xy = next_to(e, xy);
        let w_xy = next_to(w, xy);
        let ne_xy = next_to(ne, xy);
        let nw_xy = next_to(nw, xy);
        let ghost before = self.expand@;

        if self.is_open(n_xy) {
            if let Some(n_jump) = self.get_jump(n, xy) {
                self.expand.push((n_jump, n));
            }
            proof {
                Self::lemma_same_grid(*old(self), *self);
            }
            let ghost mid = self.expand@;
            if self.is_open(nw_xy) && !self.is_open(w_xy) {
                self.expand.push((nw_xy, nw));
            }
            proof {
                Self::lemma_same_grid(*old(self), *self);
            }
            let ghost mid2 = self.expand@;
            if self.is_open(ne_xy) && !self.is_open(e_xy) {
                self.expand.push((ne_xy, ne));
            }
            proof {
                assert(mid == before + old(self).jump_entry(xy, n.0 as int));
                assert(self.expand@ == before + old(self).expand_axis_spec(xy, n.0 as int));
            }
        }
    }

    /// The search for a turn around a wall that expanding a diagonal node
    /// at `xy` makes.
    fn turn_search(&self, xy: (isize, isize), goal: (isize, isize), ne: Direction) -> (r: Option<((isize, isize), Direction)>)
        requires
            self.wf(),
            is_compass(ne.0 as int),
            !is_axis_dir(ne.0 as int),
            self.inside(xy.0 as int, xy.1 as int),
        ensures
            (match r {
                Some(a) => seq![a],
                None => seq![],
            }) == self.turn_spec(xy, goal, ne.0 as int),
    {
        let n = rotate_cc(Degree(1), ne);
        let e = rotate_c(Degree(1), ne);
        let w = rotate_cc(Degree(3), ne);
        let s = rotate_c(Degree(3), ne);
        let nw = rotate_cc(Degree(2), ne);
        let se = rotate_c(Degree(2), ne);
        let nw_xy = next_to(nw, xy);
        let se_xy = next_to(se, xy);
        let n_xy = next_to(n, xy);
        let e_xy = next_to(e, xy);
        let w_xy = next_to(w, xy);
        let s_xy = next_to(s, xy);
        if !self.is_open(w_xy) && self.is_open(n_xy) && self.is_open(nw_xy) {
            self.search_diag(nw_xy, goal, nw)
        } else if !self.is_open(s_xy) && self.is_open(e_xy) && self.is_open(se_xy) {
            self.search_diag(se_xy, goal, se)
        } else {
            None
        }
    }

    /// The search along the diagonal itself that expanding a diagonal node
    /// at `xy` makes.
    fn ahead_search(&self, xy: (isize, isize), goal: (isize, isize), ne: Direction) -> (r: Option<((isize, isize), Direction)>)
        requires
            self.wf(),
            is_compass(ne.0 as int),
            !is_axis_dir(ne.0 as int),
            self.inside(xy.0 as int, xy.1 as int),
        ensures
            (match r {
                Some(a) => seq![a],
                None => seq![],
            }) == self.found(self.next_of(xy, ne.0 as int), goal, ne.0 as int),
    {
        let ne_xy = next_to(ne, xy);
        self.search_diag(ne_xy, goal, ne)
    }

    /// Adds to the expansion what a node at `xy` heading in diagonal
    /// direction `ne` finds.
    #[verifier::rlimit(50)]
    fn expand_diag(&mut self, xy: (isize, isize), goal: (isize, isize), ne: Direction)
        requires
            old(self).wf(),
            is_compass(ne.0 as int),
            !is_axis_dir(ne.0 as int),
            old(self).inside(xy.0 as int, xy.1 as int),
        ensures
            final(self).same_grid(*old(self)),
            final(self).expanded() == old(self).expanded() + old(self).expand_diag_spec(xy, goal, ne.0 as int),
    {
        let n = rotate_cc(Degree(1), ne);
        let e = rotate_c(Degree(1), ne);
        let turn = self.turn_search(xy, goal, ne);
        let n_jump = self.get_jump(n, xy);
        let e_jump = self.get_jump(e, xy);
        let ahead = self.ahead_search(xy, goal, ne);
        let ghost before = self.expand@;
        self.push_option(turn);
        if let Some(n_jump) = n_jump {
            self.expand.push((n_jump, n));
        }
        let ghost after_n = self.expand@;
        if let Some(e_jump) = e_jump {
            self.expand.push((e_jump, e));
        }
        let ghost after_e = self.expand@;
        self.push_option(ahead);
        proof {
            let g = *old(self);
            assert(after_n == before + g.turn_spec(xy, goal, ne.0 as int) + g.jump_entry(xy, n.0 as int));
            assert(after_e == after_n + g.jump_entry(xy, e.0 as int));
            assert(self.expand@ == before + g.expand_diag_spec(xy, goal, ne.0 as int));
        }
    }

    /// Replaces the expansion with what a node at `xy` heading in direction
    /// `dir` finds.
    pub fn expand_node(&mut self, xy: (isize, isize), goal: (isize, isize), dir: Direction)
        requires
            old(self).wf(),
            is_compass(dir.0 as int),
            old(self).inside(xy.0 as int, xy.1 as int),
        ensures
            final(self).same_grid(*old(self)),
            final(self).expanded() == if is_axis_dir(dir.0 as int) {
                old(self).expand_axis_spec(xy, dir.0 as int)
            } else {
                old(self).expand_diag_spec(xy, goal, dir.0 as int)
            },
    {
        self.expand.clear();
        proof {
            Self::lemma_same_grid(*old(self), *self);
            Self::lemma_same_expansion(*old(self), *self, xy, goal, dir.0 as int);
        }
        if dir.0 == 0 || dir.0 == 2 || dir.0 == 4 || dir.0 == 6 {
            self.expand_axis(xy, dir);
        } else {
            self.expand_diag(xy, goal, dir);
        }
    }

    /// The tiles and directions the last expansion found.
    pub fn expansion(&self) -> (r: &Vec<((isize, isize), Direction)>)
        ensures
            r@ == self.expanded(),
    {
        &self.expand
    }
    /// The stop that starting a search at `xy` finds in diagonal direction
    /// `d`.
    fn init_diag(&self, xy: (isize, isize), goal: (isize, isize), d: Direction) -> (r: Option<((isize, isize), Direction)>)
        requires
            self.wf(),
            is_compass(d.0 as int),
            !is_axis_dir(d.0 as int),
            self.inside(xy.0 as int, xy.1 as int),
        ensures
            (match r {
                Some(a) => seq![a],
                None => seq![],
            }) == self.init_diag_spec(xy, goal, d.0 as int),
    {
        proof {
            reveal(PathGrid::init_diag_spec);
        }
        let p = next_to(d, xy);
        let w = rotate_cc(Degree(3), d);
        let s = rotate_c(Degree(3), d);
        let w_xy = next_to(w, p);
        let s_xy = next_to(s, p);
        if self.is_open(w_xy) || self.is_open(s_xy) {
            self.search_diag(p, goal, d)
        } else {
            None
        }
    }

    /// The jump point `xy` keeps in axis direction `d`, as an expansion
    /// entry.
    fn axis_entry(&self, xy: (isize, isize), d: Direction) -> (r: Option<((isize, isize), Direction)>)
        requires
            self.wf(),
            is_axis_dir(d.0 as int),
            self.inside(xy.0 as int, xy.1 as int),
        ensures
            (match r {
                Some(a) => seq![a],
                None => seq![],
            }) == self.jump_entry(xy, d.0 as int),
    {
        match self.get_jump(d, xy) {
            Some(j) => Some((j, d)),
            None => None,
        }
    }

    /// Replaces the expansion with what starting a search at `xy` finds
    /// (see `init_spec`).
    pub fn init_expansion(&mut self, xy: (isize, isize), goal: (isize, isize))
        requires
            old(self).wf(),
            old(self).inside(xy.0 as int, xy.1 as int),
        ensures
            final(self).same_grid(*old(self)),
            final(self).expanded() == old(self).init_spec(xy, goal),
    {
        let ne = self.init_diag(xy, goal, Direction(NORTHEAST));
        let se = self.init_diag(xy, goal, Direction(SOUTHEAST));
        let sw = self.init_diag(xy, goal, Direction(SOUTHWEST));
        let nw = self.init_diag(xy, goal, Direction(NORTHWEST));
        let n = self.axis_entry(xy, Direction(NORTH));
        let e = self.axis_entry(xy, Direction(EAST));
        let s = self.axis_entry(xy, Direction(SOUTH));
        let w = self.axis_entry(xy, Direction(WEST));
        self.expand.clear();
        proof {
            Self::lemma_same_grid(*old(self), *self);
        }
        self.push_option(ne);
        self.push_option(se);
        self.push_option(sw);
        self.push_option(nw);
        self.push_option(n);
        self.push_option(e);
        self.push_option(s);
        self.push_option(w);
        proof {
            reveal(PathGrid::init_spec);
        }
        assert(self.expanded() =~= old(self).init_spec(xy, goal));
    }

    /// Pushes `xy`, reached in direction `dir`, as a candidate, keyed by its
    /// squared distance from `start`.
    fn push_near(&self, q: &mut Vec<NearNode>, start: (isize, isize), xy: (isize, isize), dir: Direction)
        requires
            self.wf(),
            self.inside(xy.0 as int, xy.1 as int),
            is_compass(dir.0 as int),
            -1 <= start.0 <= self.width(),
            -1 <= start.1 <= self.height(),
        ensures
            final(q)@ == old(q)@.push((
                ((xy.0 - start.0) * (xy.0 - start.0) + (xy.1 - start.1) * (xy.1 - start.1)) as u64,
                xy,
                dir,
            )),
            final(q)@.last().0 == sq_dist(start, xy.0 as int, xy.1 as int),
    {
        let dx = (xy.0 - start.0) as i64;
        let dy = (xy.1 - start.1) as i64;
        proof {
            assert(dx * dx <= 65536 * 65536) by (nonlinear_arith)
                requires
                    -65536 <= dx <= 65536,
            ;
            assert(dy * dy <= 65536 * 65536) by (nonlinear_arith)
                requires
                    -65536 <= dy <= 65536,
            ;
            assert(0 <= dx * dx) by (nonlinear_arith);
            assert(0 <= dy * dy) by (nonlinear_arith);
        }
        let f = (dx * dx + dy * dy) as u64;
        q.push((f, xy, dir));
    }

    /// The open tile nearest `start`: `start` itself when open; else, from
    /// the eight tiles around it, straight searches run along closed tiles to
    /// the first open one, and diagonal searches step outward and branch into
    /// straight ones on both sides, always going on from the candidate
    /// closest to `start`. From a start inside the grid or in the ring
    /// around it the searches reach every tile, so the result is an open tile
    /// at the least distance from `start`, and `None` only when no tile is
    /// open; from farther out no search starts, and the result is `None`.
    pub fn nearest_open(&self, start: (isize, isize)) -> (r: Option<(isize, isize)>)
        requires
            self.wf(),
            isize::MIN < start.0 < isize::MAX,
            isize::MIN < start.1 < isize::MAX,
        ensures
            self.open_at(start.0 as int, start.1 as int) ==> r == Some(start),
            match r {
                Some(p) => {
                    &&& self.open_at(p.0 as int, p.1 as int)
                    &&& forall|x: int, y: int|
                        #[trigger] self.open_at(x, y) ==> sq_dist(start, p.0 as int, p.1 as int) <= sq_dist(
                            start,
                            x,
                            y,
                        )
                },
                None => self.near_grid(start) ==> forall|x: int, y: int| !#[trigger] self.open_at(x, y),
            },
            !self.near_grid(start) ==> r is None,
    {
        if self.is_open(start) {
            proof {
                assert forall|x: int, y: int| #[trigger] self.open_at(x, y) implies sq_dist(
                    start,
                    start.0 as int,
                    start.1 as int,
                ) <= sq_dist(start, x, y) by {
                    lemma_sq_le(0, x - start.0);
                    lemma_sq_le(0, y - start.1);
                }
            }
            return Some(start);
        }

        let mut bh: Vec<NearNode> = Vec::with_capacity(25);
        let mut d: isize = 0;
        while d < 8
            invariant
                self.wf(),
                isize::MIN < start.0 < isize::MAX,
                isize::MIN < start.1 < isize::MAX,
                !self.open_at(start.0 as int, start.1 as int),
                0 <= d <= 8,
                bh@.len() > 0 ==> -1 <= start.0 <= self.width() && -1 <= start.1 <= self.height(),
                forall|k: int| 0 <= k < bh@.len() ==> self.near_ok(#[trigger] bh@[k]),
                forall|k: int|
                    0 <= k < bh@.len() ==> #[trigger] bh@[k].0 == sq_dist(start, bh@[k].1.0 as int, bh@[k].1.1 as int),
                self.near_grid(start) ==> forall|x: int, y: int|
                    #[trigger] self.open_at(x, y) && !(x == start.0 && y == start.1) && first_rank(dir_from(start, x, y)) < d
                        ==> covered(start, bh@, x, y),
            decreases 8 - d,
        {
            let dir = Direction(if d < 4 { d * 2 } else if d == 4 { 1 } else if d == 5 { 7 } else if d == 6 { 3 } else { 5 });
            let xy = next_to(dir, start);
            let ghost q = bh@;
            if self.inside_bounds(xy) {
                self.push_near(&mut bh, start, xy, dir);
            }
            proof {
                assert(first_rank(dir.0 as int) == d);
                if self.near_grid(start) {
                    assert forall|x: int, y: int|
                        #[trigger] self.open_at(x, y) && !(x == start.0 && y == start.1) && first_rank(dir_from(start, x, y)) < d + 1
                        implies covered(start, bh@, x, y) by {
                        if first_rank(dir_from(start, x, y)) < d {
                            lemma_covered_extend(start, q, bh@, x, y);
                        } else {
                            assert(dir_from(start, x, y) == dir.0);
                            assert(faces_to(start, xy, dir.0 as int, x, y));
                            self.lemma_faces_inside(start, xy, dir.0 as int, x, y);
                            assert(leads_to(start, bh@[q.len() as int], x, y));
                        }
                    }
                }
            }
            d = d + 1;
        }

        while bh.len() > 0
            invariant
                self.wf(),
                !self.open_at(start.0 as int, start.1 as int),
                bh@.len() > 0 ==> -1 <= start.0 <= self.width() && -1 <= start.1 <= self.height(),
                forall|k: int| 0 <= k < bh@.len() ==> self.near_ok(#[trigger] bh@[k]),
                forall|k: int|
                    0 <= k < bh@.len() ==> #[trigger] bh@[k].0 == sq_dist(start, bh@[k].1.0 as int, bh@[k].1.1 as int),
                self.near_grid(start) ==> forall|x: int, y: int|
                    #[trigger] self.open_at(x, y) ==> covered(start, bh@, x, y),
            decreases self.near_total(bh@),
        {
            proof {
                self.lemma_near_nonneg(bh@);
            }
            let ghost before = bh@;
            let node = pop_nearest(&mut bh);
            let ghost i = choose|i: int| 0 <= i < before.len() && node == before[i] && bh@ == before.remove(i);
            let ghost q0 = bh@;
            proof {
                self.lemma_near_remove(before, i);
                assert(self.near_ok(before[i]));
            }
            let (_, xy, dir) = node;
            if self.is_open(xy) {
                proof {
                    if self.near_grid(start) {
                        assert forall|x: int, y: int| #[trigger] self.open_at(x, y) implies sq_dist(
                            start,
                            xy.0 as int,
                            xy.1 as int,
                        ) <= sq_dist(start, x, y) by {
                            assert(covered(start, before, x, y));
                            let k = choose|k: int| 0 <= k < before.len() && #[trigger] leads_to(start, before[k], x, y);
                            lemma_led_near(start, before[k], x, y);
                            assert(node.0 <= before[k].0);
                            assert(before[i].0 == sq_dist(start, before[i].1.0 as int, before[i].1.1 as int));
                        }
                    }
                }
                return Some(xy);
            }
            let ghost w0 = self.near_weight(node);
            if dir.0 == 0 || dir.0 == 2 || dir.0 == 4 || dir.0 == 6 {
                let mut tmp_xy = next_to(dir, xy);
                while self.is_closed_and_inside_bounds(tmp_xy)
                    invariant
                        self.wf(),
                        is_axis_dir(dir.0 as int),
                        -1 <= tmp_xy.0 <= self.width(),
                        -1 <= tmp_xy.1 <= self.height(),
                        self.near_grid(start) ==> forall|x: int, y: int|
                            #[trigger] self.open_at(x, y) && faces_to(start, xy, dir.0 as int, x, y) && !(x == xy.0 && y == xy.1)
                                ==> faces_to(start, tmp_xy, dir.0 as int, x, y),
                    decreases steps_out(dir.0 as int, tmp_xy.0 as int, tmp_xy.1 as int, self.width(), self.height()),
                {
                    tmp_xy = next_to(dir, tmp_xy);
                }
                if self.is_open(tmp_xy) {
                    let ghost mid = bh@;
                    self.push_near(&mut bh, start, tmp_xy, dir);
                    proof {
                        self.lemma_near_push(mid, bh@.last());
                        assert(self.near_weight(bh@.last()) == 1);
                    }
                }
                assert(w0 == 2);
                proof {
                    if self.near_grid(start) {
                        assert forall|x: int, y: int| #[trigger] self.open_at(x, y) implies covered(start, bh@, x, y) by {
                            assert(covered(start, before, x, y));
                            if leads_to(start, before[i], x, y) {
                                assert(faces_to(start, tmp_xy, dir.0 as int, x, y));
                                self.lemma_faces_inside(start, tmp_xy, dir.0 as int, x, y);
                                assert(leads_to(start, bh@[q0.len() as int], x, y));
                            } else {
                                lemma_covered_remove(start, before, i, x, y);
                                lemma_covered_extend(start, q0, bh@, x, y);
                            }
                        }
                    }
                }
            } else {
                let dir_c = rotate_c(Degree(1), dir);
                let dir_cc = rotate_cc(Degree(1), dir);
                let xy_c = next_to(dir_c, xy);
                let xy_cc = next_to(dir_cc, xy);
                let xy_next = next_to(dir, xy);
                proof {
                    assert(is_axis_dir(dir_c.0 as int));
                    assert(is_axis_dir(dir_cc.0 as int));
                    assert(w0 == 5 * steps_out(dir.0 as int, xy.0 as int, xy.1 as int, self.width(), self.height()));
                    assert(steps_out(dir.0 as int, xy.0 as int, xy.1 as int, self.width(), self.height()) >= 1);
                }
                if self.inside_bounds(xy_next) {
                    self.push_near(&mut bh, start, xy_next, dir);
                    proof {
                        self.lemma_near_push(q0, bh@.last());
                        assert(steps_out(dir.0 as int, xy_next.0 as int, xy_next.1 as int, self.width(), self.height())
                            == steps_out(dir.0 as int, xy.0 as int, xy.1 as int, self.width(), self.height()) - 1);
                    }
                }
                let ghost q1 = bh@;
                if self.inside_bounds(xy_c) {
                    self.push_near(&mut bh, start, xy_c, dir_c);
                    proof {
                        self.lemma_near_push(q1, bh@.last());
                    }
                }
                let ghost q2 = bh@;
                if self.inside_bounds(xy_cc) {
                    self.push_near(&mut bh, start, xy_cc, dir_cc);
                    proof {
                        self.lemma_near_push(q2, bh@.last());
                    }
                }
                assert(self.near_total(q0) == self.near_total(before) - w0);
                assert(self.near_total(q1) <= self.near_total(q0) + w0 - 5);
                assert(self.near_total(q2) <= self.near_total(q1) + 2);
                assert(self.near_total(bh@) <= self.near_total(q2) + 2);
                proof {
                    if self.near_grid(start) {
                        assert forall|x: int, y: int| #[trigger] self.open_at(x, y) implies covered(start, bh@, x, y) by {
                            assert(covered(start, before, x, y));
                            if leads_to(start, before[i], x, y) {
                                if x != xy.0 && y != xy.1 {
                                    assert(faces_to(start, xy_next, dir.0 as int, x, y));
                                    self.lemma_faces_inside(start, xy_next, dir.0 as int, x, y);
                                    assert(leads_to(start, bh@[q0.len() as int], x, y));
                                } else if step_y(dir_c.0 as int) == 0 && y == xy.1 || step_x(dir_c.0 as int) == 0 && x == xy.0 {
                                    assert(faces_to(start, xy_c, dir_c.0 as int, x, y));
                                    self.lemma_faces_inside(start, xy_c, dir_c.0 as int, x, y);
                                    assert(leads_to(start, bh@[q1.len() as int], x, y));
                                } else {
                                    assert(faces_to(start, xy_cc, dir_cc.0 as int, x, y));
                                    self.lemma_faces_inside(start, xy_cc, dir_cc.0 as int, x, y);
                                    assert(leads_to(start, bh@[q2.len() as int], x, y));
                                }
                            } else {
                                lemma_covered_remove(start, before, i, x, y);
                                lemma_covered_extend(start, q0, bh@, x, y);
                            }
                        }
                    }
                }
            }
            assert(self.near_total(bh@) < self.near_total(before));
            proof {
                self.lemma_near_nonneg(bh@);
            }
        }
        None
    }
}

} // verus!
