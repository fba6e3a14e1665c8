# ligesis

A verified library of multilinear proof systems, written in Verus: the sumcheck, the
fraction-sum lookup argument, three polynomial commitment schemes (Basefold, Deepfold's
commitment and Ligesis), and a proof system for the integer forward pass of a small
transformer.

Every function states in its contract what it returns, over mathematical models: field
elements of the Goldilocks field and its quadratic extension, sequences for tables of
multilinear polynomials, and grids of integers for matrices. Completeness of the
protocols (an honest proof is accepted) and the algebra behind them stand as proof
functions named `law_...` beside the code that they are about.

## Layout

- `src/field.rs`, `src/prime.rs`, `src/algebra.rs`, `src/polynomial.rs`,
  `src/multilinear.rs`, `src/tables.rs`, `src/interpolation.rs`: the fields and the
  mathematics of tables and sums.
- `src/utils`: multilinear polynomials, the challenge oracle, the sumcheck and the
  Merkle tree.
- `src/logup`: the fraction-sum argument and the lookup argument.
- `src/pcs`: the commitment schemes.
- `src/proofsys`: matrices, the model and its witness, the committed layout, the
  reductions, and the unified proof (`faithful`); completeness of the reductions and of
  the unified proof stands in the two `completeness` directories, causality of the
  model in `causal.rs`.
- `app`: loading exported models from disk.
- `tests`: the library's behaviour on concrete values.

The proof system commits through a placeholder scheme whose commitment is the polynomial
itself; it stands where a hiding or succinct scheme would be put.
