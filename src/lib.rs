use vstd::prelude::*;

pub mod odometer;
pub mod partition;
pub mod phrase;
pub mod config;
pub mod candidate;
pub mod worker;
pub mod progress;

verus! {

} // verus!
