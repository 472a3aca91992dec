//! Fixed-point numbers for the simulation: 16-bit angles on a circle, 64-bit
//! unsigned quantities with 32 fractional bits, signed map coordinates with
//! 20 fractional bits, and table-driven trigonometry over them.
use std::ops::{Add, Sub, Mul, Div};
use vstd::prelude::*;
use vstd::std_specs::ops::{AddSpec, SubSpec, MulSpec, DivSpec};

verus! {

/// Half of the largest angle value: the angles are measured on a circle of
/// `u16::MAX` steps.
pub open spec fn half_turn() -> int {
    32767
}

/// An angle in steps of one part in `u16::MAX` of a full turn.
#[derive(Clone, Copy, Debug, PartialEq, Eq, PartialOrd, Ord)]
pub struct FixedAngle {
    data: u16,
}

impl Add for FixedAngle {
    type Output = FixedAngle;

    fn add(self, other: FixedAngle) -> (r: FixedAngle) {
        FixedAngle { data: self.data + other.data }
    }
}

impl vstd::std_specs::ops::AddSpecImpl for FixedAngle {
    open spec fn obeys_add_spec() -> bool {
        true
    }

    closed spec fn add_req(self, rhs: FixedAngle) -> bool {
        self.data + rhs.data <= u16::MAX
    }

    closed spec fn add_spec(self, rhs: FixedAngle) -> FixedAngle {
        FixedAngle { data: (self.data + rhs.data) as u16 }
    }
}

impl Sub for FixedAngle {
    type Output = FixedAngle;

    fn sub(self, other: FixedAngle) -> (r: FixedAngle) {
        FixedAngle { data: self.data - other.data }
    }
}

impl vstd::std_specs::ops::SubSpecImpl for FixedAngle {
    open spec fn obeys_sub_spec() -> bool {
        true
    }

    closed spec fn sub_req(self, rhs: FixedAngle) -> bool {
        self.data >= rhs.data
    }

    closed spec fn sub_spec(self, rhs: FixedAngle) -> FixedAngle {
        FixedAngle { data: (self.data - rhs.data) as u16 }
    }
}

/// The shorter way round the circle between two angle values.
pub open spec fn angle_distance(a: int, b: int) -> int {
    let dists = if a > b { a - b } else { b - a };
    if dists > half_turn() {
        u16::MAX - dists
    } else {
        dists
    }
}

/// Whether turning from `a` towards `b` by `turn` stays inside the `u16`
/// range: only the turns that cross the zero mark can leave it.
pub open spec fn turn_fits(a: int, b: int, turn: int) -> bool {
    &&& (a > b && a - b > half_turn() && turn <= angle_distance(a, b)) ==> a + turn <= u16::MAX
    &&& (a <= b && b - a > half_turn() && turn <= angle_distance(a, b)) ==> turn <= a
}

/// The angle reached by turning from `a` towards `b` by `turn`, or `b`
/// itself when the turn is longer than the distance.
pub open spec fn turn_towards_spec(a: int, b: int, turn: int) -> int {
    if turn > angle_distance(a, b) {
        b
    } else if a > b {
        if a - b > half_turn() {
            a + turn
        } else {
            a - turn
        }
    } else {
        if b - a > half_turn() {
            a - turn
        } else {
            a + turn
        }
    }
}

impl FixedAngle {
    /// The raw angle value.
    pub closed spec fn value(self) -> int {
        self.data as int
    }

    /// The angle with raw value `data`.
    pub fn from_data(data: u16) -> (r: FixedAngle)
        ensures
            r.value() == data,
    {
        FixedAngle { data }
    }

    /// The raw angle value.
    pub fn data(self) -> (r: u16)
        ensures
            r == self.value(),
    {
        self.data
    }

    /// The distance between two angles, the shorter way round.
    pub fn distance(self, other: FixedAngle) -> (r: FixedAngle)
        ensures
            r.value() == angle_distance(self.value(), other.value()),
    {
        let a = self.data;
        let b = other.data;
        let dists = {
            if a > b {
                a - b
            } else {
                b - a
            }
        };
        if dists > u16::MAX / 2 {
            FixedAngle { data: u16::MAX - dists }
        } else {
            FixedAngle { data: dists }
        }
    }

    /// Turns towards `goal` by `amount`, the shorter way round, stopping at
    /// `goal` when the amount is longer than the distance.
    pub fn turn_towards(self, goal: FixedAngle, amount: FixedAngle) -> (r: FixedAngle)
        requires
            turn_fits(self.value(), goal.value(), amount.value()),
        ensures
            r.value() == turn_towards_spec(self.value(), goal.value(), amount.value()),
    {
        let a = self.data;
        let b = goal.data;
        let turn = amount.data;
        let dist = self.distance(goal).data;
        if turn > dist {
            goal
        } else {
            if a > b {
                if a - b > u16::MAX / 2 {
                    FixedAngle { data: a + turn }
                } else {
                    FixedAngle { data: a - turn }
                }
            } else {
                if b - a > u16::MAX / 2 {
                    FixedAngle { data: a - turn }
                } else {
                    FixedAngle { data: a + turn }
                }
            }
        }
    }

    /// Keeps this angle within `arc` of `org`: an angle farther away is
    /// turned towards `org` until it is exactly `arc` away.
    pub fn lock_angle(self, org: FixedAngle, arc: FixedAngle) -> (r: FixedAngle)
        requires
            angle_distance(self.value(), org.value()) > arc.value() ==> turn_fits(
                self.value(),
                org.value(),
                angle_distance(self.value(), org.value()) - arc.value(),
            ),
        ensures
            r.value() == if angle_distance(self.value(), org.value()) > arc.value() {
                turn_towards_spec(
                    self.value(),
                    org.value(),
                    angle_distance(self.value(), org.value()) - arc.value(),
                )
            } else {
                self.value()
            },
    {
        let dist = self.distance(org);
        if dist.data > arc.data {
            self.turn_towards(org, dist - arc)
        } else {
            self
        }
    }
}

/// The distance between two angles is symmetric and at most half a turn.
pub proof fn lemma_angle_distance(a: int, b: int)
    requires
        0 <= a <= u16::MAX,
        0 <= b <= u16::MAX,
    ensures
        angle_distance(a, b) == angle_distance(b, a),
        0 <= angle_distance(a, b) <= half_turn(),
        angle_distance(a, a) == 0,
{
}

/// Turning by no more than the distance never overshoots: the distance to
/// the goal shrinks by exactly the amount turned.
pub proof fn lemma_turn_closes_gap(a: int, b: int, turn: int)
    requires
        0 <= a <= u16::MAX,
        0 <= b <= u16::MAX,
        0 <= turn <= angle_distance(a, b),
        turn_fits(a, b, turn),
    ensures
        0 <= turn_towards_spec(a, b, turn) <= u16::MAX,
        angle_distance(turn_towards_spec(a, b, turn), b) == angle_distance(a, b) - turn,
{
}

/// A turn longer than the distance lands on the goal.
pub proof fn lemma_turn_reaches_goal(a: int, b: int, turn: int)
    requires
        turn > angle_distance(a, b),
    ensures
        turn_towards_spec(a, b, turn) == b,
{
}

/// A locked angle ends up within the arc of leeway around the angle it is
/// locked to.
pub proof fn lemma_lock_within_arc(a: int, org: int, arc: int)
    requires
        0 <= a <= u16::MAX,
        0 <= org <= u16::MAX,
        0 <= arc,
        angle_distance(a, org) > arc ==> turn_fits(a, org, angle_distance(a, org) - arc),
    ensures
        ({
            let r = if angle_distance(a, org) > arc {
                turn_towards_spec(a, org, angle_distance(a, org) - arc)
            } else {
                a
            };
            angle_distance(r, org) <= arc
        }),
{
    if angle_distance(a, org) > arc {
        lemma_turn_closes_gap(a, org, angle_distance(a, org) - arc);
    }
}

/// What the angle operators require and compute, in terms of raw values.
pub proof fn lemma_angle_ops(a: FixedAngle, b: FixedAngle)
    ensures
        a.add_req(b) == (a.value() + b.value() <= u16::MAX),
        a.add_req(b) ==> a.add_spec(b).value() == a.value() + b.value(),
        a.sub_req(b) == (a.value() >= b.value()),
        a.sub_req(b) ==> a.sub_spec(b).value() == a.value() - b.value(),
{
}

/// The distance a body moving at `speed` covers while braking by
/// `deceleration` each step until it stands still.
pub open spec fn stop_sum(speed: nat, deceleration: nat) -> nat
    decreases speed,
{
    if speed == 0 || deceleration == 0 || speed < deceleration {
        speed
    } else {
        speed + stop_sum((speed - deceleration) as nat, deceleration)
    }
}

/// Whether braking from `speed` by `deceleration` ends exactly at rest with
/// every intermediate speed and the running total inside `u64`.
pub open spec fn stops_exactly(speed: nat, deceleration: nat) -> bool {
    speed == 0 || (deceleration > 0 && speed % deceleration == 0 && stop_sum(speed, deceleration)
        <= u64::MAX)
}

proof fn lemma_stop_sum_step(speed: nat, deceleration: nat)
    requires
        speed > 0,
        deceleration > 0,
        speed % deceleration == 0,
    ensures
        speed >= deceleration,
        ((speed - deceleration) as nat) % deceleration == 0,
        stop_sum(speed, deceleration) == speed + stop_sum((speed - deceleration) as nat, deceleration),
        stop_sum((speed - deceleration) as nat, deceleration) <= stop_sum(speed, deceleration),
{
    vstd::arithmetic::div_mod::lemma_mod_sub_multiples_vanish(speed as int, deceleration as int);
    if speed < deceleration {
        vstd::arithmetic::div_mod::lemma_small_mod(speed, deceleration);
    }
}

/// The distance covered while braking from `speed` by `deceleration` per
/// step, counting the current speed as the first step.
pub fn dist_to_stop(speed: UFixed64, deceleration: UFixed64) -> (r: UFixed64)
    requires
        stops_exactly(speed.value() as nat, deceleration.value() as nat),
    ensures
        r.value() == stop_sum(speed.value() as nat, deceleration.value() as nat),
{
    let mut speed = speed;
    let mut c = UFixed64 { data: 0 };
    let ghost total = stop_sum(speed.data as nat, deceleration.data as nat);
    while speed.data > 0
        invariant
            speed.data == 0 || (deceleration.data > 0 && speed.data % deceleration.data == 0),
            c.data + stop_sum(speed.data as nat, deceleration.data as nat) == total,
            total <= u64::MAX,
        decreases speed.data,
    {
        proof {
            lemma_stop_sum_step(speed.data as nat, deceleration.data as nat);
        }
        c = UFixed64 { data: c.data + speed.data };
        speed = UFixed64 { data: speed.data - deceleration.data };
    }
    c
}

/// An unsigned quantity with 32 fractional bits.
#[derive(Clone, Copy, Debug, PartialEq, Eq, PartialOrd, Ord)]
pub struct UFixed64 {
    data: u64,
}

impl UFixed64 {
    /// The raw value, scaled by 2^32.
    pub closed spec fn value(self) -> int {
        self.data as int
    }

    /// The whole number `a`.
    pub fn new(a: u32) -> (r: UFixed64)
        ensures
            r.value() == a * 4294967296,
    {
        UFixed64 { data: a as u64 * 4294967296 }
    }

    /// The quantity with raw value `data`.
    pub fn from_data(data: u64) -> (r: UFixed64)
        ensures
            r.value() == data,
    {
        UFixed64 { data }
    }

    /// The raw value.
    pub fn data(self) -> (r: u64)
        ensures
            r == self.value(),
    {
        self.data
    }
}

impl Add for UFixed64 {
    type Output = UFixed64;

    fn add(self, other: UFixed64) -> (r: UFixed64) {
        UFixed64 { data: self.data + other.data }
    }
}

impl vstd::std_specs::ops::AddSpecImpl for UFixed64 {
    open spec fn obeys_add_spec() -> bool {
        true
    }

    closed spec fn add_req(self, rhs: UFixed64) -> bool {
        self.data + rhs.data <= u64::MAX
    }

    closed spec fn add_spec(self, rhs: UFixed64) -> UFixed64 {
        UFixed64 { data: (self.data + rhs.data) as u64 }
    }
}

impl Sub for UFixed64 {
    type Output = UFixed64;

    fn sub(self, other: UFixed64) -> (r: UFixed64) {
        UFixed64 { data: self.data - other.data }
    }
}

impl vstd::std_specs::ops::SubSpecImpl for UFixed64 {
    open spec fn obeys_sub_spec() -> bool {
        true
    }

    closed spec fn sub_req(self, rhs: UFixed64) -> bool {
        self.data >= rhs.data
    }

    closed spec fn sub_spec(self, rhs: UFixed64) -> UFixed64 {
        UFixed64 { data: (self.data - rhs.data) as u64 }
    }
}

impl Mul for UFixed64 {
    type Output = UFixed64;

    fn mul(self, other: UFixed64) -> (r: UFixed64) {
        UFixed64 { data: self.data * other.data }
    }
}

impl vstd::std_specs::ops::MulSpecImpl for UFixed64 {
    open spec fn obeys_mul_spec() -> bool {
        true
    }

    closed spec fn mul_req(self, rhs: UFixed64) -> bool {
        self.data * rhs.data <= u64::MAX
    }

    closed spec fn mul_spec(self, rhs: UFixed64) -> UFixed64 {
        UFixed64 { data: (self.data * rhs.data) as u64 }
    }
}

impl Div for UFixed64 {
    type Output = UFixed64;

    fn div(self, other: UFixed64) -> (r: UFixed64) {
        UFixed64 { data: self.data / other.data }
    }
}

impl vstd::std_specs::ops::DivSpecImpl for UFixed64 {
    open spec fn obeys_div_spec() -> bool {
        true
    }

    closed spec fn div_req(self, rhs: UFixed64) -> bool {
        rhs.data != 0
    }

    closed spec fn div_spec(self, rhs: UFixed64) -> UFixed64 {
        UFixed64 { data: (self.data / rhs.data) as u64 }
    }
}

/// What the operators on `UFixed64` require and compute, in raw values.
pub proof fn lemma_ufixed_ops(a: UFixed64, b: UFixed64)
    ensures
        a.add_req(b) == (a.value() + b.value() <= u64::MAX),
        a.add_req(b) ==> a.add_spec(b).value() == a.value() + b.value(),
        a.sub_req(b) == (a.value() >= b.value()),
        a.sub_req(b) ==> a.sub_spec(b).value() == a.value() - b.value(),
        a.mul_req(b) == (a.value() * b.value() <= u64::MAX),
        a.mul_req(b) ==> a.mul_spec(b).value() == a.value() * b.value(),
        a.div_req(b) == (b.value() != 0),
        a.div_req(b) ==> a.div_spec(b).value() == a.value() / b.value(),
{
}

/// Division of integers rounding towards zero, as machine division does.
pub open spec fn div_trunc(a: int, b: int) -> int {
    let q = (if a < 0 { -a } else { a }) / (if b < 0 { -b } else { b });
    if (a < 0) != (b < 0) {
        -q
    } else {
        q
    }
}

/// A signed map coordinate with 20 fractional bits.
#[derive(Clone, Copy, Debug, PartialEq, Eq, PartialOrd, Ord)]
pub struct Coord {
    data: i32,
}

impl Coord {
    /// The raw value, scaled by 2^20.
    pub closed spec fn value(self) -> int {
        self.data as int
    }

    /// The coordinate with raw value `data`.
    pub fn from_data(data: i32) -> (r: Coord)
        ensures
            r.value() == data,
    {
        Coord { data }
    }

    /// The raw value.
    pub fn data(self) -> (r: i32)
        ensures
            r == self.value(),
    {
        self.data
    }
}

impl Add for Coord {
    type Output = Coord;

    fn add(self, other: Coord) -> (r: Coord) {
        Coord { data: self.data + other.data }
    }
}

impl vstd::std_specs::ops::AddSpecImpl for Coord {
    open spec fn obeys_add_spec() -> bool {
        true
    }

    closed spec fn add_req(self, rhs: Coord) -> bool {
        i32::MIN <= self.data + rhs.data <= i32::MAX
    }

    closed spec fn add_spec(self, rhs: Coord) -> Coord {
        Coord { data: (self.data + rhs.data) as i32 }
    }
}

impl Sub for Coord {
    type Output = Coord;

    fn sub(self, other: Coord) -> (r: Coord) {
        Coord { data: self.data - other.data }
    }
}

impl vstd::std_specs::ops::SubSpecImpl for Coord {
    open spec fn obeys_sub_spec() -> bool {
        true
    }

    closed spec fn sub_req(self, rhs: Coord) -> bool {
        i32::MIN <= self.data - rhs.data <= i32::MAX
    }

    closed spec fn sub_spec(self, rhs: Coord) -> Coord {
        Coord { data: (self.data - rhs.data) as i32 }
    }
}

impl Mul for Coord {
    type Output = Coord;

    fn mul(self, other: Coord) -> (r: Coord) {
        Coord { data: self.data * other.data }
    }
}

impl vstd::std_specs::ops::MulSpecImpl for Coord {
    open spec fn obeys_mul_spec() -> bool {
        true
    }

    closed spec fn mul_req(self, rhs: Coord) -> bool {
        i32::MIN <= self.data * rhs.data <= i32::MAX
    }

    closed spec fn mul_spec(self, rhs: Coord) -> Coord {
        Coord { data: (self.data * rhs.data) as i32 }
    }
}

impl Div for Coord {
    type Output = Coord;

    fn div(self, other: Coord) -> (r: Coord) {
        // Rounds towards zero, as `i32` division does.
        let a = self.data as i64;
        let b = other.data as i64;
        let ua = if a < 0 { -a } else { a };
        let ub = if b < 0 { -b } else { b };
        let q = ua / ub;
        let r = if (a < 0) != (b < 0) { -q } else { q };
        Coord { data: r as i32 }
    }
}

impl vstd::std_specs::ops::DivSpecImpl for Coord {
    open spec fn obeys_div_spec() -> bool {
        true
    }

    closed spec fn div_req(self, rhs: Coord) -> bool {
        rhs.data != 0 && !(self.data == i32::MIN && rhs.data == -1)
    }

    closed spec fn div_spec(self, rhs: Coord) -> Coord {
        Coord { data: div_trunc(self.data as int, rhs.data as int) as i32 }
    }
}

/// What the operators on `Coord` require and compute, in raw values.
pub proof fn lemma_coord_ops(a: Coord, b: Coord)
    ensures
        a.add_req(b) == (i32::MIN <= a.value() + b.value() <= i32::MAX),
        a.add_req(b) ==> a.add_spec(b).value() == a.value() + b.value(),
        a.sub_req(b) == (i32::MIN <= a.value() - b.value() <= i32::MAX),
        a.sub_req(b) ==> a.sub_spec(b).value() == a.value() - b.value(),
        a.mul_req(b) == (i32::MIN <= a.value() * b.value() <= i32::MAX),
        a.mul_req(b) ==> a.mul_spec(b).value() == a.value() * b.value(),
        a.div_req(b) == (b.value() != 0 && !(a.value() == i32::MIN && b.value() == -1)),
        a.div_req(b) ==> a.div_spec(b).value() == div_trunc(a.value(), b.value()),
{
    if a.div_req(b) {
        lemma_div_trunc_range(a.value(), b.value());
    }
}

proof fn lemma_div_trunc_range(a: int, b: int)
    requires
        i32::MIN <= a <= i32::MAX,
        i32::MIN <= b <= i32::MAX,
        b != 0,
        !(a == i32::MIN && b == -1),
    ensures
        i32::MIN <= div_trunc(a, b) <= i32::MAX,
{
    let ua = if a < 0 { -a } else { a };
    let ub = if b < 0 { -b } else { b };
    vstd::arithmetic::div_mod::lemma_div_basics(ua);
    vstd::arithmetic::div_mod::lemma_div_is_ordered_by_denominator(ua, 1, ub);
    vstd::arithmetic::div_mod::lemma_div_pos_is_pos(ua, ub);
    if ub >= 2 {
        vstd::arithmetic::div_mod::lemma_div_is_ordered_by_denominator(ua, 2, ub);
    }
}

/// `a / b` rounded towards zero, for a positive divisor.
pub fn div_toward_zero(a: i64, b: i64) -> (r: i64)
    requires
        b > 0,
        a > i64::MIN,
    ensures
        r == div_trunc(a as int, b as int),
{
    if a < 0 {
        -((-a) / b)
    } else {
        a / b
    }
}

/// The position in a 1024 by 1024 arctangent table of the direction
/// `(ax, ay)` (both non-negative), after scaling the larger side below 1024.
pub open spec fn atan2_index(ay: int, ax: int) -> int {
    let d = if ax > ay { ax / 1024 + 1 } else { ay / 1024 + 1 };
    (ay / d) * 1024 + ax / d
}

/// The absolute value.
pub open spec fn abs_int(v: int) -> int {
    if v < 0 {
        -v
    } else {
        v
    }
}

pub proof fn lemma_atan2_index(ay: int, ax: int)
    requires
        0 <= ay,
        0 <= ax,
    ensures
        0 <= atan2_index(ay, ax) < 1024 * 1024,
{
    let m = if ax > ay { ax } else { ay };
    let d = m / 1024 + 1;
    vstd::arithmetic::div_mod::lemma_fundamental_div_mod(m, 1024);
    vstd::arithmetic::div_mod::lemma_fundamental_div_mod(ax, d);
    vstd::arithmetic::div_mod::lemma_fundamental_div_mod(ay, d);
    vstd::arithmetic::div_mod::lemma_div_pos_is_pos(m, 1024);
    vstd::arithmetic::div_mod::lemma_div_pos_is_pos(ax, d);
    vstd::arithmetic::div_mod::lemma_div_pos_is_pos(ay, d);
    vstd::arithmetic::div_mod::lemma_mod_bound(ax, d);
    vstd::arithmetic::div_mod::lemma_mod_bound(ay, d);
    assert(ax / d < 1024) by (nonlinear_arith)
        requires
            ax == d * (ax / d) + ax % d,
            0 <= ax % d,
            ax <= m,
            m < 1024 * d,
            d > 0,
    ;
    assert(ay / d < 1024) by (nonlinear_arith)
        requires
            ay == d * (ay / d) + ay % d,
            0 <= ay % d,
            ay <= m,
            m < 1024 * d,
            d > 0,
    ;
}

/// Lookup tables for cosine, sine and a quarter circle of arctangents.
pub struct FixedBase {
    cos_sin: Vec<(i32, i32)>,
    atan2: Vec<u16>,
}

impl FixedBase {
    /// The tables have their sizes and the arctangents stay within a quarter
    /// circle.
    pub closed spec fn wf(&self) -> bool {
        &&& self.cos_sin.len() == 65535
        &&& self.atan2.len() == 1024 * 1024
        &&& forall|i: int| 0 <= i < self.atan2.len() ==> #[trigger] self.atan2[i] <= 16383
    }

    /// The cosine and sine table, one entry per angle value.
    pub closed spec fn cos_sin_table(&self) -> Seq<(i32, i32)> {
        self.cos_sin@
    }

    /// The arctangent table, indexed by `y * 1024 + x`.
    pub closed spec fn atan2_table(&self) -> Seq<u16> {
        self.atan2@
    }

    /// Wraps tables computed elsewhere; `None` unless they have the sizes
    /// the lookups need and every arctangent is within a quarter circle.
    pub fn new(cos_sin: Vec<(i32, i32)>, atan2: Vec<u16>) -> (r: Option<FixedBase>)
        ensures
            r is Some <==> (cos_sin.len() == 65535 && atan2.len() == 1024 * 1024 && forall|i: int|
                0 <= i < atan2.len() ==> #[trigger] atan2[i] <= 16383),
            r matches Some(b) ==> b.wf() && b.cos_sin_table() == cos_sin@ && b.atan2_table() == atan2@,
    {
        if cos_sin.len() != 65535 || atan2.len() != 1024 * 1024 {
            return None;
        }
        let n = atan2.len();
        for i in 0..n
            invariant
                n == atan2.len(),
                forall|k: int| 0 <= k < i ==> #[trigger] atan2[k] <= 16383,
        {
            if atan2[i] > 16383 {
                return None;
            }
        }
        Some(FixedBase { cos_sin, atan2 })
    }

    /// The table entry for the direction `(x, y)` in the first quadrant.
    pub open spec fn quarter_angle(&self, y: int, x: int) -> int {
        self.atan2_table()[atan2_index(abs_int(y), abs_int(x))] as int
    }

    /// The angle of the direction `(ffx, ffy)`, built from the quarter table.
    pub open spec fn atan2_spec(&self, y: int, x: int) -> int {
        if x >= 0 {
            if y >= 0 {
                self.quarter_angle(y, x)
            } else {
                u16::MAX - self.quarter_angle(-y, x)
            }
        } else {
            if y >= 0 {
                u16::MAX / 2 - self.quarter_angle(y, -x)
            } else {
                u16::MAX / 2 + self.quarter_angle(-y, -x)
            }
        }
    }

    /// The angle of the direction `(ffx, ffy)`.
    pub fn atan2(&self, ffy: Coord, ffx: Coord) -> (r: FixedAngle)
        requires
            self.wf(),
            ffy.value() != i32::MIN,
            ffx.value() != i32::MIN,
        ensures
            r.value() == self.atan2_spec(ffy.value(), ffx.value()),
    {
        let x = ffx.data;
        let y = ffy.data;
        if x >= 0 {
            if y >= 0 {
                FixedAngle { data: self.qrtr_atan2(y, x) }
            } else {
                FixedAngle { data: u16::MAX - self.qrtr_atan2(-y, x) }
            }
        } else {
            if y >= 0 {
                FixedAngle { data: u16::MAX / 2 - self.qrtr_atan2(y, -x) }
            } else {
                FixedAngle { data: u16::MAX / 2 + self.qrtr_atan2(-y, -x) }
            }
        }
    }

    /// The arctangent table entry for `(|x|, |y|)`.
    fn qrtr_atan2(&self, y: i32, x: i32) -> (r: u16)
        requires
            self.wf(),
            y != i32::MIN,
            x != i32::MIN,
        ensures
            r == self.quarter_angle(y as int, x as int),
            r <= 16383,
    {
        let mut x = if x < 0 { -x } else { x };
        let mut y = if y < 0 { -y } else { y };
        proof {
            lemma_atan2_index(y as int, x as int);
        }
        let d = {
            if x > y {
                x / 1024 + 1
            } else {
                y / 1024 + 1
            }
        };
        x = x / d;
        y = y / d;
        self.atan2[(y * 1024 + x) as usize]
    }

    /// The offset of length `offset` in direction `a`, from the cosine and
    /// sine table scaled by `i16::MAX`.
    pub fn offset(&self, a: FixedAngle, offset: Coord) -> (r: (Coord, Coord))
        requires
            self.wf(),
            a.value() < 65535,
        ensures
            r.0.value() == div_trunc(offset.value() * self.cos_sin_table()[a.value()].0, 32767) as i32,
            r.1.value() == div_trunc(offset.value() * self.cos_sin_table()[a.value()].1, 32767) as i32,
    {
        let max_i16 = 32767i64;
        let (xo, yo) = self.cos_sin[a.data as usize];
        proof {
            assert(-2147483648 * 2147483648 <= offset.data as i64 * xo as i64 <= 2147483648 * 2147483648)
                by (nonlinear_arith);
            assert(-2147483648 * 2147483648 <= offset.data as i64 * yo as i64 <= 2147483648 * 2147483648)
                by (nonlinear_arith);
        }
        let x = div_toward_zero(offset.data as i64 * xo as i64, max_i16);
        let y = div_toward_zero(offset.data as i64 * yo as i64, max_i16);
        (Coord { data: x as i32 }, Coord { data: y as i32 })
    }
}

/// Something that collides: its position, radius and weight.
pub trait Collider {
    fn x_y_radius_weight(&self) -> (Coord, Coord, Coord, Coord);
}

} // verus!
