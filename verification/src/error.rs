//! The ways in which installing the index or answering a query fails.

use vstd::prelude::*;

verus! {

/// Why an entry point failed.
#[derive(Clone, Copy, Debug, PartialEq, Eq, Structural)]
pub enum CompletionError {
    /// An index was installed already; it stays.
    DoubleInitialization,
    /// A query came while no index was installed.
    IndexUnavailable,
    /// An entry of the index that matched is not UTF-8 text.
    EncodingInvariantViolation,
}

impl CompletionError {
    /// The text shown to the host for this failure.
    pub open spec fn message_text(self) -> Seq<char> {
        match self {
            CompletionError::DoubleInitialization => "Failed to set trie instance"@,
            CompletionError::IndexUnavailable => "Failed to aquire trie instance"@,
            CompletionError::EncodingInvariantViolation => "Stored entry is not valid UTF-8"@,
        }
    }

    /// The text shown to the host for this failure.
    pub fn message(&self) -> (text: String)
        ensures
            text@ == self.message_text(),
    {
        match self {
            CompletionError::DoubleInitialization => "Failed to set trie instance".to_owned(),
            CompletionError::IndexUnavailable => "Failed to aquire trie instance".to_owned(),
            CompletionError::EncodingInvariantViolation => {
                "Stored entry is not valid UTF-8".to_owned()
            },
        }
    }
}

} // verus!
