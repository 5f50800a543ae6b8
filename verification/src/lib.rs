//! Arithmetization core of a PLONK-style proof system: a circuit builder that
//! turns field and elliptic-curve computations into a fixed-width gate matrix
//! plus a copy-constraint routing graph, together with witness generation.

pub mod builder;
pub mod circuit;
pub mod curve;
pub mod field;
pub mod gates;
pub mod target;
pub mod partitions;
pub mod witness;

use vstd::prelude::*;

verus! {

} // verus!
