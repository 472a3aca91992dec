//! Small table-driven trigonometry: angles of one part in 65536 of a turn,
//! an 8-bit cosine and sine table over a quarter circle, and an arctangent
//! table over a 1024 by 1024 quarter plane.
use crate::libs::fixed_point::{abs_int, atan2_index, div_trunc, div_toward_zero, lemma_atan2_index};
use vstd::prelude::*;

verus! {

/// An angle in steps of one part in 65536 of a full turn.
#[derive(Clone, Copy, Debug)]
pub struct TinyAngle {
    data: u16,
}

impl TinyAngle {
    /// The raw angle value.
    pub closed spec fn value(self) -> int {
        self.data as int
    }

    /// The angle with raw value `data`.
    pub fn from_data(data: u16) -> (r: TinyAngle)
        ensures
            r.value() == data,
    {
        TinyAngle { data }
    }

    /// The raw angle value.
    pub fn data(self) -> (r: u16)
        ensures
            r == self.value(),
    {
        self.data
    }
}

/// A fixed-point number stored in an `i32`.
#[derive(Clone, Copy, Debug)]
pub struct TinyFloat {
    data: i32,
}

impl TinyFloat {
    /// The raw value.
    pub closed spec fn value(self) -> int {
        self.data as int
    }

    /// The number with raw value `data`.
    pub fn from_data(data: i32) -> (r: TinyFloat)
        ensures
            r.value() == data,
    {
        TinyFloat { data }
    }

    /// The raw value.
    pub fn data(self) -> (r: i32)
        ensures
            r == self.value(),
    {
        self.data
    }
}

/// The lookup tables.
pub struct TinyBase {
    cos_sin: Vec<(u8, u8)>,
    atan2: Vec<u16>,
}

impl TinyBase {
    /// The tables have their sizes and the arctangents stay within a quarter
    /// circle.
    pub closed spec fn wf(&self) -> bool {
        &&& self.cos_sin.len() == 16384
        &&& self.atan2.len() == 1024 * 1024
        &&& forall|i: int| 0 <= i < self.atan2.len() ==> #[trigger] self.atan2[i] <= 16384
    }

    /// The cosine and sine table over a quarter circle.
    pub closed spec fn cos_sin_table(&self) -> Seq<(u8, u8)> {
        self.cos_sin@
    }

    /// The arctangent table, indexed by `y * 1024 + x`.
    pub closed spec fn atan2_table(&self) -> Seq<u16> {
        self.atan2@
    }

    /// Wraps tables computed elsewhere; `None` unless they have the sizes
    /// the lookups need and every arctangent is within a quarter circle.
    pub fn new(cos_sin: Vec<(u8, u8)>, atan2: Vec<u16>) -> (r: Option<TinyBase>)
        ensures
            r is Some <==> (cos_sin.len() == 16384 && atan2.len() == 1024 * 1024 && forall|i: int|
                0 <= i < atan2.len() ==> #[trigger] atan2[i] <= 16384),
            r matches Some(b) ==> b.wf() && b.cos_sin_table() == cos_sin@ && b.atan2_table() == atan2@,
    {
        if cos_sin.len() != 16384 || atan2.len() != 1024 * 1024 {
            return None;
        }
        let n = atan2.len();
        for i in 0..n
            invariant
                n == atan2.len(),
                forall|k: int| 0 <= k < i ==> #[trigger] atan2[k] <= 16384,
        {
            if atan2[i] > 16384 {
                return None;
            }
        }
        Some(TinyBase { cos_sin, atan2 })
    }

    /// The table entry for the direction `(|x|, |y|)`.
    pub open spec fn quarter_angle(&self, y: int, x: int) -> int {
        self.atan2_table()[atan2_index(abs_int(y), abs_int(x))] as int
    }

    /// The angle of the direction `(x, y)`, built from the quarter table.
    pub open spec fn atan2_spec(&self, y: int, x: int) -> int {
        if x >= 0 {
            if y >= 0 {
                self.quarter_angle(y, x)
            } else {
                65535 - self.quarter_angle(-y, x)
            }
        } else {
            if y >= 0 {
                32768 - self.quarter_angle(y, -x)
            } else {
                32768 + self.quarter_angle(-y, -x)
            }
        }
    }

    /// The angle of the direction `(ffx, ffy)`.
    pub fn atan2(&self, ffy: TinyFloat, ffx: TinyFloat) -> (r: TinyAngle)
        requires
            self.wf(),
            ffy.value() != i32::MIN,
            ffx.value() != i32::MIN,
        ensures
            r.value() == self.atan2_spec(ffy.value(), ffx.value()),
    {
        let x = ffx.data;
        let y = ffy.data;
        if x >= 0 {
            if y >= 0 {
                TinyAngle { data: self.qrtr_atan2(y, x) }
            } else {
                TinyAngle { data: 65535 - self.qrtr_atan2(-y, x) }
            }
        } else {
            if y >= 0 {
                TinyAngle { data: 32768 - self.qrtr_atan2(y, -x) }
            } else {
                TinyAngle { data: 32768 + self.qrtr_atan2(-y, -x) }
            }
        }
    }

    /// The arctangent table entry for `(|x|, |y|)`.
    fn qrtr_atan2(&self, y: i32, x: i32) -> (r: u16)
        requires
            self.wf(),
            y != i32::MIN,
            x != i32::MIN,
        ensures
            r == self.quarter_angle(y as int, x as int),
            r <= 16384,
    {
        let mut x = if x < 0 { -x } else { x };
        let mut y = if y < 0 { -y } else { y };
        proof {
            lemma_atan2_index(y as int, x as int);
        }
        let d = {
            if x > y {
                x / 1024 + 1
            } else {
                y / 1024 + 1
            }
        };
        x = x / d;
        y = y / d;
        self.atan2[(y * 1024 + x) as usize]
    }

    /// Scales `(ffx, ffy)` by the cosine and sine of `a` (out of 255); the
    /// `offset` argument is not used.
    pub fn offset(&self, a: TinyAngle, ff: (TinyFloat, TinyFloat), offset: TinyFloat) -> (r: (TinyFloat, TinyFloat))
        requires
            self.wf(),
            a.value() < 16384,
        ensures
            r.0.value() == div_trunc(ff.0.value() * self.cos_sin_table()[a.value()].0, 255) as i32,
            r.1.value() == div_trunc(ff.1.value() * self.cos_sin_table()[a.value()].1, 255) as i32,
    {
        let (ffx, ffy) = ff;
        let (xo, yo) = self.cos_sin[a.data as usize];
        proof {
            assert(-2147483648 * 255 <= ffx.data as i64 * xo as i64 <= 2147483648 * 255) by (nonlinear_arith)
                requires
                    0 <= xo <= 255,
            ;
            assert(-2147483648 * 255 <= ffy.data as i64 * yo as i64 <= 2147483648 * 255) by (nonlinear_arith)
                requires
                    0 <= yo <= 255,
            ;
        }
        let x = div_toward_zero(ffx.data as i64 * xo as i64, 255);
        let y = div_toward_zero(ffy.data as i64 * yo as i64, 255);
        (TinyFloat { data: x as i32 }, TinyFloat { data: y as i32 })
    }
}

} // verus!
