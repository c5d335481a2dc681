//! Exact fixed-point currency arithmetic and a progressive income-tax
//! schedule model built on it.
//!
//! The [`gbp`] module provides the currency value type with verified
//! parsing, formatting and arithmetic; the [`tax`] module provides the
//! band/schedule model and its application algorithm.

pub mod digits;
pub mod gbp;
pub mod tax;

pub use gbp::Gbp;
