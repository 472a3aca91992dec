//! Table-driven trigonometry on 64-bit fixed-point coordinates with 16
//! fractional bits, using one arctangent table over an octant.
use crate::libs::fixed_point::{angle_distance, div_trunc, div_toward_zero, turn_fits, turn_towards_spec};
use std::ops::{Add, Sub};
use vstd::prelude::*;
use vstd::std_specs::ops::{AddSpec, SubSpec};

verus! {

/// A coordinate scaled by 2^16, meant to stay within 47 bits.
pub struct Fast(i64);

impl Fast {
    /// The raw value.
    pub closed spec fn value(&self) -> int {
        self.0 as int
    }

    /// The coordinate with raw value `data`.
    pub fn from_data(data: i64) -> (r: Fast)
        ensures
            r.value() == data,
    {
        Fast(data)
    }

    /// The raw value.
    pub fn data(&self) -> (r: i64)
        ensures
            r == self.value(),
    {
        self.0
    }
}

/// An angle in steps of one part in `u16::MAX` of a full turn.
#[derive(Clone, Copy, Debug, PartialEq, Eq, PartialOrd, Ord)]
pub struct Angle(u16);

impl Add for Angle {
    type Output = Angle;

    fn add(self, other: Angle) -> (r: Angle) {
        Angle(self.0 + other.0)
    }
}

impl vstd::std_specs::ops::AddSpecImpl for Angle {
    open spec fn obeys_add_spec() -> bool {
        true
    }

    closed spec fn add_req(self, rhs: Angle) -> bool {
        self.0 + rhs.0 <= u16::MAX
    }

    closed spec fn add_spec(self, rhs: Angle) -> Angle {
        Angle((self.0 + rhs.0) as u16)
    }
}

impl Sub for Angle {
    type Output = Angle;

    fn sub(self, other: Angle) -> (r: Angle) {
        Angle(self.0 - other.0)
    }
}

impl vstd::std_specs::ops::SubSpecImpl for Angle {
    open spec fn obeys_sub_spec() -> bool {
        true
    }

    closed spec fn sub_req(self, rhs: Angle) -> bool {
        self.0 >= rhs.0
    }

    closed spec fn sub_spec(self, rhs: Angle) -> Angle {
        Angle((self.0 - rhs.0) as u16)
    }
}

/// What the angle operators require and compute, in raw values.
pub proof fn lemma_angle_ops(a: Angle, b: Angle)
    ensures
        a.add_req(b) == (a.value() + b.value() <= u16::MAX),
        a.add_req(b) ==> a.add_spec(b).value() == a.value() + b.value(),
        a.sub_req(b) == (a.value() >= b.value()),
        a.sub_req(b) ==> a.sub_spec(b).value() == a.value() - b.value(),
{
}

impl Angle {
    /// The raw angle value.
    pub closed spec fn value(self) -> int {
        self.0 as int
    }

    /// The angle with raw value `data`.
    pub fn from_data(data: u16) -> (r: Angle)
        ensures
            r.value() == data,
    {
        Angle(data)
    }

    /// The raw angle value.
    pub fn data(self) -> (r: u16)
        ensures
            r == self.value(),
    {
        self.0
    }

    /// The distance between two angles, the shorter way round.
    pub fn distance(self, other: Angle) -> (r: Angle)
        ensures
            r.value() == angle_distance(self.value(), other.value()),
    {
        let a = self.0;
        let b = other.0;
        let dists = {
            if a > b {
                a - b
            } else {
                b - a
            }
        };
        if dists > u16::MAX / 2 {
            Angle(u16::MAX - dists)
        } else {
            Angle(dists)
        }
    }

    /// Turns towards `goal` by `turn`, the shorter way round, stopping at
    /// `goal` when the turn is longer than the distance.
    pub fn turn_towards(self, goal: Angle, turn: Angle) -> (r: Angle)
        requires
            turn_fits(self.value(), goal.value(), turn.value()),
        ensures
            r.value() == turn_towards_spec(self.value(), goal.value(), turn.value()),
    {
        let a = self.0;
        let b = goal.0;
        let turn = turn.0;
        let dist = self.distance(goal).0;
        if turn > dist {
            goal
        } else if a > b {
            if a - b > u16::MAX / 2 {
                Angle(a + turn)
            } else {
                Angle(a - turn)
            }
        } else if b - a > u16::MAX / 2 {
            Angle(a - turn)
        } else {
            Angle(a + turn)
        }
    }

    /// Keeps this angle within `arc` of `org`: an angle farther away is
    /// turned towards `org` until it is exactly `arc` away.
    pub fn lock_angle(self, org: Angle, arc: Angle) -> (r: Angle)
        requires
            angle_distance(self.value(), org.value()) > arc.value() ==> turn_fits(
                self.value(),
                org.value(),
                angle_distance(self.value(), org.value()) - arc.value(),
            ),
        ensures
            r.value() == if angle_distance(self.value(), org.value()) > arc.value() {
                turn_towards_spec(
                    self.value(),
                    org.value(),
                    angle_distance(self.value(), org.value()) - arc.value(),
                )
            } else {
                self.value()
            },
    {
        let dist = self.distance(org);
        if dist.0 > arc.0 {
            self.turn_towards(org, dist - arc)
        } else {
            self
        }
    }
}

/// The bound on coordinates: 47 bits.
pub open spec fn fast_bound() -> int {
    0x8000_0000_0000
}

/// `a / b` as a fraction of 65536, cut to 16 bits; one below 65536 when the
/// two are equal.
pub open spec fn ratio16_spec(a: int, b: int) -> int {
    let a = if a < 0 { -a } else { a };
    let b = if b < 0 { -b } else { b };
    if a == b {
        65535
    } else {
        ((a * 65536 / b) as u16) as int
    }
}

/// `|a| / |b|` scaled by 65536 and cut to 16 bits.
pub fn ratio16(a: i64, b: i64) -> (r: u16)
    requires
        -fast_bound() < a < fast_bound(),
        -fast_bound() < b < fast_bound(),
        b != 0 || a == 0,
    ensures
        r == ratio16_spec(a as int, b as int),
{
    let denom = 65536i64;
    let a = if a < 0 { -a } else { a };
    let b = if b < 0 { -b } else { b };
    if a == b {
        return (denom - 1) as u16;
    }
    (a * denom / b) as u16
}

/// Lookup tables for cosine, sine and an octant of arctangents.
pub struct FastBase {
    cos_sin: Vec<(i32, i32)>,
    atan2: Vec<u16>,
}

impl FastBase {
    /// The tables have their sizes, the cosines and sines are scaled by at
    /// most `u16::MAX`, and the arctangents stay within a quarter circle.
    pub closed spec fn wf(&self) -> bool {
        &&& self.cos_sin.len() == 65535
        &&& self.atan2.len() == 65536
        &&& forall|i: int| 0 <= i < self.atan2.len() ==> #[trigger] self.atan2[i] <= 16383
        &&& forall|i: int|
            0 <= i < self.cos_sin.len() ==> -65535 <= (#[trigger] self.cos_sin[i]).0 <= 65535 && -65535
                <= self.cos_sin[i].1 <= 65535
    }

    /// The cosine and sine table, one entry per angle value.
    pub closed spec fn cos_sin_table(&self) -> Seq<(i32, i32)> {
        self.cos_sin@
    }

    /// The arctangent table, indexed by the ratio of the shorter to the
    /// longer side.
    pub closed spec fn atan2_table(&self) -> Seq<u16> {
        self.atan2@
    }

    /// Wraps tables computed elsewhere; `None` unless they have the sizes and
    /// ranges the lookups need.
    pub fn new(cos_sin: Vec<(i32, i32)>, atan2: Vec<u16>) -> (r: Option<FastBase>)
        ensures
            r is Some <==> {
                &&& cos_sin.len() == 65535
                &&& atan2.len() == 65536
                &&& forall|i: int| 0 <= i < atan2.len() ==> #[trigger] atan2[i] <= 16383
                &&& forall|i: int|
                    0 <= i < cos_sin.len() ==> -65535 <= (#[trigger] cos_sin[i]).0 <= 65535 && -65535
                        <= cos_sin[i].1 <= 65535
            },
            r matches Some(b) ==> b.wf() && b.cos_sin_table() == cos_sin@ && b.atan2_table() == atan2@,
    {
        if cos_sin.len() != 65535 || atan2.len() != 65536 {
            return None;
        }
        let n = atan2.len();
        for i in 0..n
            invariant
                n == atan2.len(),
                forall|k: int| 0 <= k < i ==> #[trigger] atan2[k] <= 16383,
        {
            if atan2[i] > 16383 {
                return None;
            }
        }
        let m = cos_sin.len();
        for i in 0..m
            invariant
                m == cos_sin.len(),
                forall|k: int|
                    0 <= k < i ==> -65535 <= (#[trigger] cos_sin[k]).0 <= 65535 && -65535 <= cos_sin[k].1
                        <= 65535,
        {
            let (c, s) = cos_sin[i];
            if c < -65535 || c > 65535 || s < -65535 || s > 65535 {
                return None;
            }
        }
        Some(FastBase { cos_sin, atan2 })
    }

    /// The table entry for the ratio of `a` to `b`.
    pub open spec fn octant_angle(&self, a: int, b: int) -> int {
        self.atan2_table()[ratio16_spec(a, b)] as int
    }

    /// The angle of `(x, y)`, octant by octant; the axes and the origin are
    /// handled on their own.
    pub open spec fn atan2_spec(&self, y: int, x: int) -> int {
        let ax = if x < 0 { -x } else { x };
        let ay = if y < 0 { -y } else { y };
        if x > 0 && y > 0 && ax >= ay {
            self.octant_angle(ay, ax)
        } else if x > 0 && y > 0 && ay >= ax {
            u16::MAX / 4 - self.octant_angle(ax, ay)
        } else if x < 0 && y > 0 && ay >= ax {
            u16::MAX / 4 + self.octant_angle(ax, ay)
        } else if x < 0 && y > 0 && ax >= ay {
            u16::MAX / 2 - self.octant_angle(ay, ax)
        } else if x < 0 && y < 0 && ax >= ay {
            u16::MAX / 2 + self.octant_angle(ay, ax)
        } else if x < 0 && y < 0 && ay >= ax {
            u16::MAX / 4 * 3 - self.octant_angle(ax, ay)
        } else if x > 0 && y < 0 && ay >= ax {
            u16::MAX / 4 * 3 + self.octant_angle(ax, ay)
        } else if x > 0 && y < 0 && ax >= ay {
            u16::MAX - self.octant_angle(ay, ax)
        } else if x == 0 && y == 0 {
            0
        } else if x == 0 {
            if y > 0 {
                (u16::MAX / 4) as int
            } else {
                u16::MAX - u16::MAX / 4
            }
        } else if x > 0 {
            0
        } else {
            (u16::MAX / 2) as int
        }
    }

    /// The angle of the direction `(x, y)`.
    pub fn atan2(&self, y: Fast, x: Fast) -> (r: Angle)
        requires
            self.wf(),
            -fast_bound() < y.value() < fast_bound(),
            -fast_bound() < x.value() < fast_bound(),
        ensures
            r.value() == self.atan2_spec(y.value(), x.value()),
    {
        let y = y.0;
        let x = x.0;
        let ax = if x < 0 { -x } else { x };
        let ay = if y < 0 { -y } else { y };
        if x > 0 && y > 0 && ax >= ay {
            let r = self.atan2[ratio16(ay, ax) as usize];
            let angle = r;
            return Angle(angle);
        }
        if x > 0 && y > 0 && ay >= ax {
            let angle_offset = self.atan2[ratio16(ax, ay) as usize];
            let angle = u16::MAX / 4 - angle_offset;
            return Angle(angle);
        }
        if x < 0 && y > 0 && ay >= ax {
            let angle_offset = self.atan2[ratio16(ax, ay) as usize];
            let angle = u16::MAX / 4 + angle_offset;
            return Angle(angle);
        }
        if x < 0 && y > 0 && ax >= ay {
            let angle_offset = self.atan2[ratio16(ay, ax) as usize];
            let angle = u16::MAX / 2 - angle_offset;
            return Angle(angle);
        }
        if x < 0 && y < 0 && ax >= ay {
            let angle_offset = self.atan2[ratio16(ay, ax) as usize];
            let angle = u16::MAX / 2 + angle_offset;
            return Angle(angle);
        }
        if x < 0 && y < 0 && ay >= ax {
            let angle_offset = self.atan2[ratio16(ax, ay) as usize];
            let angle = u16::MAX / 4 * 3 - angle_offset;
            return Angle(angle);
        }
        if x > 0 && y < 0 && ay >= ax {
            let angle_offset = self.atan2[ratio16(ax, ay) as usize];
            let angle = u16::MAX / 4 * 3 + angle_offset;
            return Angle(angle);
        }
        if x > 0 && y < 0 && ax >= ay {
            let angle_offset = self.atan2[ratio16(ay, ax) as usize];
            let angle = u16::MAX - angle_offset;
            return Angle(angle);
        }
        if x == 0 && y == 0 {
            return Angle(0);
        }
        if x == 0 {
            if y > 0 {
                return Angle(u16::MAX / 4);
            } else {
                return Angle(u16::MAX - u16::MAX / 4);
            }
        }
        if y == 0 {
            if x > 0 {
                return Angle(0);
            } else {
                return Angle(u16::MAX / 2);
            }
        }
        Angle(0)
    }

    /// Whether `(x, y)` lies strictly inside the circle of radius `r`, after
    /// dropping 16 fractional bits from each.
    pub fn in_range(&self, xy: (Fast, Fast), r: Fast) -> (b: bool)
        requires
            -fast_bound() < xy.0.value() < fast_bound(),
            -fast_bound() < xy.1.value() < fast_bound(),
            -fast_bound() < r.value() < fast_bound(),
        ensures
            b == ({
                let x = div_trunc(xy.0.value(), 65536);
                let y = div_trunc(xy.1.value(), 65536);
                let r = div_trunc(r.value(), 65536);
                x * x + y * y < r * r
            }),
    {
        proof {
            lemma_scaled_down(xy.0.0 as int);
            lemma_scaled_down(xy.1.0 as int);
            lemma_scaled_down(r.0 as int);
        }
        let denom = 65536i64;
        let x = div_toward_zero(xy.0.0, denom);
        let y = div_toward_zero(xy.1.0, denom);
        let r = div_toward_zero(r.0, denom);
        proof {
            lemma_small_square(x as int);
            lemma_small_square(y as int);
            lemma_small_square(r as int);
        }
        x * x + y * y < r * r
    }

    /// The offset of length `f` in direction `a`, from the cosine and sine
    /// table scaled by 65536.
    pub fn offset(&self, a: Angle, f: Fast) -> (r: (Fast, Fast))
        requires
            self.wf(),
            a.value() < 65535,
            -fast_bound() < f.value() < fast_bound(),
        ensures
            r.0.value() == div_trunc(self.cos_sin_table()[a.value()].0 * f.value(), 65536),
            r.1.value() == div_trunc(self.cos_sin_table()[a.value()].1 * f.value(), 65536),
    {
        let (xo, yo) = self.cos_sin[a.0 as usize];
        let f = f.0;
        let denom = 65536i64;
        proof {
            lemma_table_product(xo as int, f as int);
            lemma_table_product(yo as int, f as int);
        }
        let fx = Fast(div_toward_zero((xo as i64) * f, denom));
        let fy = Fast(div_toward_zero((yo as i64) * f, denom));
        (fx, fy)
    }
}

proof fn lemma_scaled_down(v: int)
    requires
        -fast_bound() < v < fast_bound(),
    ensures
        -0x7fff_ffff <= div_trunc(v, 65536) <= 0x7fff_ffff,
{
    let a = if v < 0 { -v } else { v };
    vstd::arithmetic::div_mod::lemma_div_pos_is_pos(a, 65536);
    vstd::arithmetic::div_mod::lemma_div_is_ordered(a, 0x7fff_ffff_ffff, 65536);
}

proof fn lemma_small_square(v: int)
    requires
        -0x7fff_ffff <= v <= 0x7fff_ffff,
    ensures
        0 <= v * v <= 0x3fff_ffff_0000_0001,
{
    assert(0 <= v * v <= 0x3fff_ffff_0000_0001) by (nonlinear_arith)
        requires
            -0x7fff_ffff <= v <= 0x7fff_ffff,
    ;
}

proof fn lemma_table_product(c: int, f: int)
    requires
        -65535 <= c <= 65535,
        -fast_bound() < f < fast_bound(),
    ensures
        i64::MIN < c * f <= i64::MAX,
{
    assert(-65535 * 0x8000_0000_0000 <= c * f <= 65535 * 0x8000_0000_0000) by (nonlinear_arith)
        requires
            -65535 <= c <= 65535,
            -0x8000_0000_0000 <= f <= 0x8000_0000_0000,
    ;
}

} // verus!
