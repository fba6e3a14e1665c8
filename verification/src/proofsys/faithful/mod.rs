//! The unified proof: every table lookup, matrix product and limb check of a forward
//! pass in one argument.
pub mod commitments;
pub mod completeness;
pub mod coverage;
pub mod lookups;
pub mod openings;
pub mod operands;
pub mod protocol;
pub mod segments;
pub mod shapes;
pub mod soundness;
pub mod sources;
pub mod table;
pub mod values;

pub use commitments::build_commitments;
pub use openings::{RecompProof, SegmentOpening, UnifiedProof};
pub use protocol::{prove, verify};
pub use segments::{E, LN_REM_HI_LIMB, LN_REM_LIMB, SQRT_HI_LIMB, SQRT_LO_LIMB, TABLE_IN, TABLE_OUT, TABLE_TYPE};
