pub mod algebra;
pub mod field;
pub mod gkr;
pub mod interpolation;
pub mod logup;
pub mod multilinear;
pub mod pcs;
pub mod polynomial;
pub mod prime;
pub mod proofsys;
pub mod tables;
pub mod utils;
pub mod views;
