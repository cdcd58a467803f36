use vstd::prelude::*;

pub mod reply;
pub mod script;
pub mod solution;
pub mod value;

verus! {

/// Marker returned when the engine reports that the assertions have no model.
#[derive(Debug, Clone, Copy, PartialEq, Eq)]
pub struct UnsatError;

} // verus!
