//! The state bookkeeping of the simulator: references to signals and
//! instances, value selections, and the scopes that name probed signals.

pub mod state;
pub mod tracer;
