//! The field of the proof system.
use vstd::prelude::*;
use crate::field::GoldilocksExt2;

verus! {

/// Challenges and sumcheck arithmetic live in the quadratic extension.
pub type EF = GoldilocksExt2;

} // verus!
