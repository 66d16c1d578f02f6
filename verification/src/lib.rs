//! Dense matrices over an abstract scalar type, and a feedforward neural
//! network built from them.
//!
//! Everything here is proved against mathematical models: a matrix is its
//! shape and its row-major cells ([`algebra::MatrixView`]), a layer is a pair
//! of such matrices, a network is a sequence of layers.  Floating point never
//! appears: element arithmetic comes from the [`scalar::Scalar`] trait, and the
//! logistic function and the random source are handed in by the caller.

pub mod algebra;
pub mod matrix;
pub mod nn;
pub mod scalar;
pub mod text;
pub mod training;
