use vstd::prelude::*;

pub mod config;
pub mod engine;
pub mod graph;
pub mod process;
pub mod scheduler;
pub mod select;
pub mod status;
pub mod validate;

verus! {

} // verus!
