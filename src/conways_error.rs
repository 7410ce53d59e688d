use vstd::prelude::*;

verus! {

/// Errors that can occur while running the game.
#[derive(Debug)]
pub enum ConwaysError {
    /// A cell could not be created; the text names the offending coordinate.
    FailedToCreateCell(String),
}

} // verus!
