//! In-place solvers for dense linear systems over IEEE 754 single-precision
//! scalars: Gauss-Jordan elimination with full pivoting, and LU decomposition
//! by Crout's method with scaled partial pivoting followed by forward and
//! backward substitution.
//!
//! A scalar is carried as its 32-bit pattern and every arithmetic operation is
//! computed on integers, so that each rounding step has a contract and every
//! solver is verified down to the last bit of its result.
//!
//! What a solver computes is stated by a model that is written over any
//! arithmetic. The contracts of the solvers take the model over the
//! scalars; the same model over the real numbers is proved to solve the
//! equations that the solver is meant for.

pub mod scalar;
pub mod rounding;
pub mod arithmetic;
pub mod number;
pub mod error;
pub mod grid;
pub mod matrix;
pub mod lu_decomposition;
pub mod gauss_jordan;
pub mod exact;
pub mod exact_elimination;
pub mod exact_decomposition;
pub mod exact_substitution;
pub mod exact_solution;
pub mod exact_inverse;
