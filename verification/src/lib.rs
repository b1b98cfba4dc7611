//! Search for word-segmented palindromic phrases of a fixed letter count,
//! built from the words of a supplied lexicon.
//!
//! - [`words`] wraps the lexicon as an ordered word list with a membership
//!   test.
//! - [`segment`] splits a letter sequence into dictionary words by
//!   first-match backtracking.
//! - [`mirror`] completes a candidate prefix into a full palindrome by the
//!   symmetry constraint.
//! - [`search`] drives the recursive enumeration and filters the results.
//! - [`phrases`] holds the spec-level vocabulary shared by the contracts,
//!   and [`laws`] the proofs of what every result satisfies.

pub mod laws;
pub mod mirror;
pub mod phrases;
pub mod search;
pub mod segment;
pub mod words;
