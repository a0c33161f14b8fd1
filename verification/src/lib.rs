//! Lifecycle of public parameters for a two-circuit, folding-scheme proof
//! system: deterministic bootstrap of the step circuit's shape, setup-error
//! normalization, a canonical binary codec for the on-disk record, and the
//! compressed persistence payload around it.

pub mod bootstrap;
pub mod circuit;
pub mod codec;
pub mod compress;
pub mod error;
pub mod generate;
pub mod params;
pub mod persist;

use vstd::prelude::*;

verus! {

} // verus!
