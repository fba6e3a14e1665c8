//! Polynomial commitment schemes.
pub mod basefold;
pub mod deepfold;
pub mod domain;
pub mod fri;
pub mod leaves;
pub mod ligesis;
pub mod noop;
pub mod scheme;
pub mod sizes;
pub mod soundness;
pub mod subset_sum;
