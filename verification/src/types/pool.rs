//! Markers naming which pool of the engine an
//! [`ArenaSlice`](crate::types::node::ArenaSlice) indexes, so handing a slice
//! to the wrong pool is a compile error rather than a garbage read.

use vstd::prelude::*;

verus! {

pub enum Children {
    Pool,
}

pub enum Quants {
    Pool,
}

pub enum StrSlices {
    Pool,
}

pub enum TypeParams {
    Pool,
}

pub enum VariantFields {
    Pool,
}

pub enum Variants {
    Pool,
}

} // verus!
