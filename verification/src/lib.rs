//! Streaming per-station temperature statistics.
//!
//! Records of the form `<station>;<temperature>` are folded one at a time into
//! a state that keeps, for each station, the minimum, maximum, sum and count of
//! its readings. The state is rendered as
//! `{name=min/mean/max, name=min/mean/max, }` with the names in ascending byte
//! order.
//!
//! Temperatures are fixed-point numbers held as whole thousandths of a degree,
//! so that every sum is exact and merging partial states gives the same result
//! in any order. A text is read as the nearest thousandth, or as the infinity
//! of its sign where the number is too large to be held, and the mean is
//! given to the nearest thousandth. Beside the finite numbers stand the two
//! infinities and the outcome that is no number, which minimum and maximum
//! pass over and which sum and mean keep. Text is handled as bytes
//! throughout.

pub mod order;
pub mod model;
pub mod decimal;
pub mod number;
pub mod record;
pub mod stats;
pub mod state;
pub mod report;
pub mod batch;
pub mod laws;
