//! The logarithmic-derivative lookup argument.
//!
//! That every entry of a query vector `a` occurs in a table `t`, entry `t_j`
//! exactly `e_j` times, is the identity
//!
//! ```text
//!   sum_i 1 / (x - a_i)  =  sum_j e_j / (x - t_j)
//! ```
//!
//! at a random `x`. Each side is a sum of fractions, evaluated by a tree circuit
//! that adds pairs of fractions down to a single root fraction.
pub mod frac_sum;
pub mod lookup;
