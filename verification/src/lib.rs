//! A multinomial naive Bayes classifier over count-valued feature matrices.
//!
//! The library parses whitespace-delimited numeric text into dense
//! rectangular matrices, accumulates per-class and per-feature counts from a
//! feature matrix and a one-hot label matrix, and validates query matrices
//! against a fitted model.  The floating-point steps (log-probabilities and
//! posterior normalization) are left to the caller, who derives them from the
//! exact integer counts this crate computes.

pub mod error;
pub mod matrix;
pub mod model;
pub mod parse;
pub mod render;
pub mod text;
