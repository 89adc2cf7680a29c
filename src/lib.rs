//! Structural complexity of genome-rearrangement graphs: an array-backed
//! marker graph with soft deletion, telomere completion, size-based
//! trimming, bounded neighborhood extraction and the CARP index.
use vstd::prelude::*;

pub mod rearrangement;
pub mod mbg;
pub mod util;
pub mod measure;
pub mod trim;
pub mod scan;
pub mod gfa;

verus! {

} // verus!
