//! Substring search over Unicode scalar values with a precomputed skip table.
//!
//! Texts and patterns are sequences of `char`; every index that the library
//! takes or returns counts scalar values, never bytes.
//!
//! - `occurrence` says what an occurrence is and defines the three results a
//!   search can ask for: the first occurrence, all occurrences, and the
//!   occurrences that share no position.
//! - `skip` builds the skip table of a pattern.
//! - `scan` holds the three searches, each proved to return what
//!   `occurrence` defines.
//! - `chars` decodes a string slice into its scalar values.

pub mod chars;
pub mod occurrence;
pub mod scan;
pub mod skip;

pub use crate::scan::{kmpm_str, kmpm_str_all, kmpm_str_nad};
