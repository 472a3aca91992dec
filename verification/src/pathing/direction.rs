//! The eight compass directions of a square grid, numbered clockwise from
//! north, and rotations between them in steps of 45 degrees.
use vstd::prelude::*;

verus! {

/// A compass direction: 0 is north, then clockwise in steps of 45 degrees.
#[derive(Clone, Copy, Debug, PartialEq, Eq, PartialOrd, Ord)]
pub struct Direction(pub isize);

/// A rotation in steps of 45 degrees.
#[derive(Clone, Copy, Debug)]
pub struct Degree(pub isize);

/// Rotation amounts, in steps of 45 degrees, for building a `Degree`.
pub const DEG_45: isize = 1;
pub const DEG_90: isize = 2;
pub const DEG_135: isize = 3;
pub const DEG_180: isize = 4;
/// Direction numbers, for building a `Direction`.
pub const NORTH: isize = 0;
pub const EAST: isize = 2;
pub const SOUTH: isize = 4;
pub const WEST: isize = 6;
pub const NORTHEAST: isize = 1;
pub const SOUTHEAST: isize = 3;
pub const SOUTHWEST: isize = 5;
pub const NORTHWEST: isize = 7;

/// A direction number that names one of the eight compass points.
pub open spec fn is_compass(d: int) -> bool {
    0 <= d < 8
}

/// The x step of one move in direction `d`.
pub open spec fn step_x(d: int) -> int {
    if d == 1 || d == 2 || d == 3 {
        1
    } else if d == 5 || d == 6 || d == 7 {
        -1
    } else {
        0
    }
}

/// The y step of one move in direction `d` (north is +y).
pub open spec fn step_y(d: int) -> int {
    if d == 7 || d == 0 || d == 1 {
        1
    } else if d == 3 || d == 4 || d == 5 {
        -1
    } else {
        0
    }
}

/// Clockwise rotation, folding numbers of 8 and more back by 8.
pub open spec fn rotate_c_spec(rot: int, d: int) -> int {
    if d + rot >= 8 {
        d + rot - 8
    } else {
        d + rot
    }
}

/// Counter-clockwise rotation, folding negative numbers up by 8.
pub open spec fn rotate_cc_spec(rot: int, d: int) -> int {
    if d - rot < 0 {
        8 + d - rot
    } else {
        d - rot
    }
}

/// Turns `d` clockwise by `rot` steps of 45 degrees.
pub fn rotate_c(rot: Degree, d: Direction) -> (r: Direction)
    requires
        isize::MIN <= d.0 + rot.0 <= isize::MAX,
    ensures
        r.0 == rotate_c_spec(rot.0 as int, d.0 as int),
{
    let d2 = d.0 + rot.0;
    if d2 >= 8 {
        Direction(d2 - 8)
    } else {
        Direction(d2)
    }
}

/// Turns `d` counter-clockwise by `rot` steps of 45 degrees.
pub fn rotate_cc(rot: Degree, d: Direction) -> (r: Direction)
    requires
        isize::MIN + 8 <= d.0 - rot.0 <= isize::MAX,
    ensures
        r.0 == rotate_cc_spec(rot.0 as int, d.0 as int),
{
    let d2 = d.0 - rot.0;
    if d2 < 0 {
        Direction(8 + d2)
    } else {
        Direction(d2)
    }
}

/// Moves the point `(x, y)` by `n` cells in direction `dir`.
pub fn translate(n: isize, dir: Direction, xy: (isize, isize)) -> (r: (isize, isize))
    requires
        is_compass(dir.0 as int),
        isize::MIN <= xy.0 + step_x(dir.0 as int) * n <= isize::MAX,
        isize::MIN <= xy.1 + step_y(dir.0 as int) * n <= isize::MAX,
    ensures
        r.0 == xy.0 + step_x(dir.0 as int) * n,
        r.1 == xy.1 + step_y(dir.0 as int) * n,
{
    let (x, y) = xy;
    match dir.0 {
        0 => (x, y + n),
        1 => (x + n, y + n),
        2 => (x + n, y),
        3 => (x + n, y - n),
        4 => (x, y - n),
        5 => (x - n, y - n),
        6 => (x - n, y),
        _ => (x - n, y + n),
    }
}

/// Rotating clockwise and then counter-clockwise by the same angle gives back
/// the direction one started from, and both rotations stay on the compass.
pub proof fn lemma_rotate_round_trip(rot: int, d: int)
    requires
        is_compass(d),
        0 <= rot <= 8,
    ensures
        is_compass(rotate_c_spec(rot, d)),
        rotate_cc_spec(rot, rotate_c_spec(rot, d)) == d,
        rotate_c_spec(rot, rotate_cc_spec(rot, d)) == d,
        is_compass(rotate_cc_spec(rot, d)),
{
}

/// A half turn reverses the direction of travel: one step forward and one
/// step in the rotated direction come back to the start.
pub proof fn lemma_half_turn_reverses(d: int)
    requires
        is_compass(d),
    ensures
        step_x(rotate_c_spec(4, d)) == -step_x(d),
        step_y(rotate_c_spec(4, d)) == -step_y(d),
{
}

} // verus!
