use vstd::prelude::*;

pub mod model;
pub mod scheduling;
pub mod laws;

verus! {

} // verus!
