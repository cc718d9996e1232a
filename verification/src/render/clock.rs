//! The clock of the render side, whose frame rate varies.
use crate::float64::of_int;
use crate::float64::F64;
use vstd::prelude::*;

verus! {

/// Zero for what is not finite, and otherwise the nearest value from zero to one.
pub open spec fn unit(x: F64) -> F64 {
    if !x.finite() || x.flt(of_int(0)) {
        of_int(0)
    } else if of_int(1).flt(x) {
        of_int(1)
    } else {
        x
    }
}

pub fn to_unit(x: F64) -> (r: F64)
    ensures
        r == unit(x),
{
    let zero = F64::from_i64(0);
    let whole = F64::from_i64(1);
    if !x.is_finite() || x.lt(zero) {
        zero
    } else if whole.lt(x) {
        whole
    } else {
        x
    }
}

/// Held between zero and one.
pub open spec fn clamped(x: F64) -> F64 {
    if x.flt(of_int(0)) {
        of_int(0)
    } else if of_int(1).flt(x) {
        of_int(1)
    } else {
        x
    }
}

pub fn clamp(x: F64) -> (r: F64)
    ensures
        r == clamped(x),
{
    let zero = F64::from_i64(0);
    let whole = F64::from_i64(1);
    if x.lt(zero) {
        zero
    } else if whole.lt(x) {
        whole
    } else {
        x
    }
}

/// A time that passed: zero for what is negative or not finite.
pub open spec fn elapsed(dt: F64) -> F64 {
    if !dt.finite() || dt.flt(of_int(0)) {
        of_int(0)
    } else {
        dt
    }
}

/// The time of a render frame.
#[derive(Clone, Copy, Debug)]
pub struct RenderClock {
    /// Render frames so far. Durations are measured by `dt`, not by this.
    pub frame: u64,
    /// Seconds since the last render frame.
    pub dt: F64,
    /// Where the frame stands between the last simulation frame and the one before it.
    pub alpha: F64,
}

impl RenderClock {
    pub fn new() -> (r: RenderClock)
        ensures
            r == (RenderClock { frame: 0, dt: of_int(0), alpha: of_int(0) }),
    {
        RenderClock { frame: 0, dt: F64::from_i64(0), alpha: F64::from_i64(0) }
    }

    /// Starts a render frame. A time that runs backwards counts as none, and `alpha` is kept
    /// from zero to one.
    pub fn begin_frame(&mut self, dt: F64, alpha: F64)
        requires
            old(self).frame < u64::MAX,
        ensures
            *final(self) == (RenderClock {
                frame: (old(self).frame + 1) as u64,
                dt: elapsed(dt),
                alpha: unit(alpha),
            }),
    {
        self.frame = self.frame + 1;
        let zero = F64::from_i64(0);
        self.dt = if !dt.is_finite() || dt.lt(zero) {
            zero
        } else {
            dt
        };
        self.alpha = to_unit(alpha);
    }
}

impl Default for RenderClock {
    fn default() -> (r: RenderClock)
        ensures
            r == (RenderClock { frame: 0, dt: of_int(0), alpha: of_int(0) }),
    {
        RenderClock::new()
    }
}

}
