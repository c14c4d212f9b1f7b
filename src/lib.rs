use vstd::prelude::*;

pub mod axis;
pub mod direction;
pub mod rotation;
pub mod body;
pub mod world;
pub mod reconfiguration;

verus! {

} // verus!
