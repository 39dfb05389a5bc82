//! Natural-sort keys for strings.
//!
//! [`to_natural`] rewrites a string so that plain lexicographic comparison of
//! the results orders embedded decimal numbers by magnitude: every maximal run
//! of ASCII digits is left-padded with `'0'` to a width of ten, and every other
//! character is kept as it is.
//!
//! The mathematical model lives in [`model`], the executable code in
//! [`scan`] and [`naturalizer`], and the properties proved of the model in
//! [`laws`] and [`order`].

pub mod laws;
pub mod model;
pub mod naturalizer;
pub mod order;
pub mod scan;

pub use crate::naturalizer::to_natural;
pub use crate::naturalizer::NaturalizeError;
pub use crate::scan::is_digit;
