//! Sparse matrices in three interoperable storage formats: coordinate list
//! (COO), compressed sparse row (CSR) and compressed sparse column (CSC),
//! with conversions between them and sparse multiplication.
//!
//! Entries are 32-bit IEEE 754 words carried as `u32`; the word 0 stands for
//! an absent (zero) entry. Scalar arithmetic on the words is delegated to a
//! software implementation of IEEE 754 behind a few trusted calls.

pub mod indexing;
pub mod rng;
pub mod scalar;
pub mod compressed;
pub mod sorting;
pub mod sparse_coo;
pub mod sparse_csc;
pub mod sparse_csr;
pub mod sparse_matrix;

pub use indexing::flat_index_to_column_major;
