//! Simulation tracers.

use vstd::prelude::*;

verus! {

/// A tracer that records nothing.
#[derive(Clone, Copy, Debug)]
pub struct NullTracer;

} // verus!
