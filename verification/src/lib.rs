//! A binary Merkle commitment tree over elements of the BN254 scalar field.
//!
//! The crate has two halves: a canonical codec for field elements
//! (decimal and fixed-width hexadecimal text) in [`hashing`], and a
//! level-by-level tree builder in [`merkle`] that pairs leaves with a
//! caller-supplied two-input hash oracle, carrying an unpaired element
//! upward unchanged, and records for every leaf its sibling path and
//! positional index.

use vstd::prelude::*;

pub mod cli;
pub mod hashing;
pub mod merkle;

verus! {

/// The closed set of failures this library reports.
#[derive(Debug)]
pub enum Error {
    /// The tree builder was given no leaves; nothing was built.
    EmptyInput,
    /// A text value could not be parsed as a field element; carries the
    /// offending literal.
    InvalidLiteral(String),
    /// The hash oracle failed on some pair; carries the oracle's own cause.
    HashOracleError(String),
}

} // verus!
