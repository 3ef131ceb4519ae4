//! The command line of the converter.

use vstd::prelude::*;

verus! {

/// Convert an Obsidian directory to Hugo-compatible markdown.
#[derive(Debug)]
pub struct Args {
    /// Path to your Obsidian vault
    pub vault: String,
    /// Path to your output directory
    pub dest: String,
}

} // verus!
