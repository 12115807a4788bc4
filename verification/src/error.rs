//! Errors that the library reports.

use vstd::prelude::*;

verus! {

/// Why a text could not be turned into model input.
#[derive(Debug)]
pub enum TtsError {
    /// The language code is not one the models know; it holds the code.
    InvalidLanguage(String),
    /// The character index table is not a JSON array of integers; it holds the parser's message.
    IndexerJson(String),
}

} // verus!
