//! Reading a system-on-chip temperature from a diagnostic tool's output and
//! turning it into an 8-bit fan duty cycle.
//!
//! Temperatures are held as whole thousandths of a degree Celsius
//! (millidegrees) in an `i64`, so that the mapping is exact integer arithmetic
//! and every temperature, however low or high, has a duty cycle.
pub mod duty;
pub mod reading;

pub use duty::{get_pwm, lemma_duty_monotonic, CEILING_MILLI, FLOOR_MILLI, FULL_DUTY};
pub use reading::{parse_temp_output, parse_temp_text, MAX_MILLI};
