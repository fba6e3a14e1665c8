//! The proof system for one integer inference.
pub mod canonical;
pub mod causal;
pub mod commit;
pub mod completeness;
pub mod export;
pub mod faithful;
pub mod grandprod;
pub mod grid;
pub mod manifest;
pub mod maxprod;
pub mod meaning;
pub mod model;
pub mod piop;
pub mod protocol;
pub mod reduce;
pub mod residual;
pub mod sizes;
pub mod soundness;
pub mod sumfeat;
pub mod tensor;
pub mod witness;
