use vstd::prelude::*;

verus! {

/// Tenths of an arcsecond in one degree.
pub const TENTHS_PER_DEGREE: i64 = 36000;

/// An angle in degrees, minutes and seconds. The sign is carried on `deg`
/// alone (negative for South or West); `min` and `sec` are magnitudes.
#[derive(Clone, Copy, Debug, PartialEq, Eq, Structural)]
pub struct Angle {
    pub deg: i16,
    pub min: u8,
    pub sec: u8,
}

/// The angle in tenths of an arcsecond: `sign(deg) * (|deg| + min/60 + sec/3600)`
/// degrees, scaled by 36000.
pub open spec fn angle_tenths(a: Angle) -> int {
    let magnitude = (if a.deg < 0 { -a.deg } else { a.deg as int }) * 36000 + a.min * 600 + a.sec
        * 10;
    if a.deg < 0 {
        -magnitude
    } else {
        magnitude
    }
}

/// Every angle that an `Angle` can hold lies within two billion tenths of an
/// arcsecond of zero.
pub proof fn lemma_angle_tenths_bound(a: Angle)
    ensures
        -2_000_000_000 <= angle_tenths(a) <= 2_000_000_000,
{
}

impl Angle {
    /// The angle in tenths of an arcsecond.
    pub fn to_tenths(&self) -> (r: i64)
        ensures
            r == angle_tenths(*self),
    {
        let d: i64 = self.deg as i64;
        let abs_deg: i64 = if d < 0 {
            -d
        } else {
            d
        };
        let magnitude: i64 = abs_deg * TENTHS_PER_DEGREE + self.min as i64 * 600 + self.sec as i64
            * 10;
        if d < 0 {
            -magnitude
        } else {
            magnitude
        }
    }
}

} // verus!
