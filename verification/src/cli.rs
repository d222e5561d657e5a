//! Options that the surrounding command-line layer hands to the program.

use vstd::prelude::*;

verus! {

/// Choices collected at the command line: whether to emit the tree as
/// JSON, and where to write it. The interactive front end owns the
/// parsing; this struct only carries the values inward.
pub struct Cli {
    /// Output the Merkle tree in JSON format.
    pub json: bool,
    /// Output file for the JSON data, when one was given.
    pub output: Option<String>,
}

} // verus!
