use vstd::prelude::*;

verus! {

/// The error returned when a generator is asked for a graph that its
/// parameters do not describe.
#[derive(Debug, Clone, Copy, PartialEq, Eq, Structural)]
pub struct InvalidInputError;

} // verus!
