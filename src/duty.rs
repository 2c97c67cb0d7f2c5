//! The clamped linear ramp from a temperature to a duty cycle.
use vstd::prelude::*;

verus! {

/// Up to and including this temperature the fan stays off (40 °C).
pub const FLOOR_MILLI: i64 = 40_000;

/// From this temperature on the fan runs at full duty (60 °C).
pub const CEILING_MILLI: i64 = 60_000;

/// The largest duty cycle.
pub const FULL_DUTY: u8 = 255;

/// Rounds `a / b` up, for a non-negative `a` and a positive `b`.
pub open spec fn ceil_div(a: int, b: int) -> int {
    (a + b - 1) / b
}

/// The duty cycle for a temperature in millidegrees.
///
/// At or below 40 °C it is 0, at or above 60 °C it is 255, and in between it
/// is `(t - 40) * 12.75` rounded up. With `t` in millidegrees the slope of
/// 12.75 per degree is 51 per 4000 millidegrees.
pub open spec fn duty_of(t: int) -> int {
    if t <= FLOOR_MILLI {
        0
    } else if t >= CEILING_MILLI {
        FULL_DUTY as int
    } else {
        ceil_div((t - FLOOR_MILLI) * 51, 4000)
    }
}

/// Maps a temperature in millidegrees Celsius to a duty cycle in `0..=255`.
pub fn get_pwm(temp: i64) -> (r: u8)
    ensures
        r == duty_of(temp as int),
        temp <= FLOOR_MILLI ==> r == 0,
        temp >= CEILING_MILLI ==> r == FULL_DUTY,
        FLOOR_MILLI < temp < CEILING_MILLI ==> 4000 * (r - 1) < (temp - FLOOR_MILLI) * 51 <= 4000
            * r,
{
    if temp <= FLOOR_MILLI {
        return 0;
    }
    if temp >= CEILING_MILLI {
        return FULL_DUTY;
    }
    let scaled: u64 = ((temp - FLOOR_MILLI) as u64) * 51;
    let up: u64 = (scaled + 3999) / 4000;
    proof {
        let d = (temp - FLOOR_MILLI) as int;
        assert(0 < d < 20_000);
        assert(scaled as int == d * 51);
        assert(up as int == ceil_div(d * 51, 4000));
        assert(up <= 255) by (nonlinear_arith)
            requires
                up == (scaled + 3999) / 4000,
                scaled < 20_000 * 51,
        ;
        assert(4000 * (up - 1) < scaled <= 4000 * up) by (nonlinear_arith)
            requires
                up == (scaled + 3999) / 4000,
        ;
    }
    up as u8
}

/// Above the floor and below the ceiling, a warmer reading never asks for less
/// cooling: the duty cycle does not decrease as the temperature rises.
pub proof fn lemma_duty_monotonic(a: int, b: int)
    requires
        a <= b,
    ensures
        duty_of(a) <= duty_of(b),
{
    if FLOOR_MILLI < a && b < CEILING_MILLI {
        assert(ceil_div((a - FLOOR_MILLI) * 51, 4000) <= ceil_div((b - FLOOR_MILLI) * 51, 4000))
            by (nonlinear_arith)
            requires
                a <= b,
        ;
    } else if FLOOR_MILLI < a < CEILING_MILLI {
        assert(ceil_div((a - FLOOR_MILLI) * 51, 4000) <= 255) by (nonlinear_arith)
            requires
                FLOOR_MILLI < a < CEILING_MILLI,
        ;
    }
}

} // verus!
