//! Source-offset bookkeeping and report building for macro-expanded Solidity projects.
use vstd::prelude::*;

pub mod arith;
pub mod building;
pub mod errors;
pub mod file_sets;
pub mod json;
pub mod junit;
pub mod offsets;
pub mod ordered;
pub mod paint;
pub mod paths;
pub mod patterns;
pub mod placement;
pub mod results;
pub mod shown;
pub mod snapshot;
pub mod sources;
pub mod span_utils;
pub mod tables;
pub mod text;
pub mod tracking;

verus! {

} // verus!
