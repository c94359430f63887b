//! Address-reordering engine for LED panels built from serpentine-wired strip
//! segments, together with the small numeric and calibration utilities that
//! accompany it: a fixed-window moving average, joystick axis calibration, and
//! a decimal string parser for build-time configuration values.

pub mod led;
pub mod math;
pub mod peripherals;
pub mod strconv;
