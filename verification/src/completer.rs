//! The completer: the place of the one index of a process, filled at most
//! once, and the two entry points that a host calls.

use once_cell::sync::OnceCell;
use vstd::prelude::*;
use vstd::utf8::encode_utf8;

use crate::cell::{cell_get, cell_new, cell_set, installed_words};
use crate::error::CompletionError;
use crate::index::{is_lookup_result, vocabulary_words, PrefixIndex};
use crate::prefix::is_proper_prefix;
use crate::reduction::LIMIT;
use crate::text::texts_bytes;
use crate::vocabulary::lines_of;

verus! {

/// Holds the installed index, or none yet. Its view is the words of the
/// installed index, or `None`.
pub struct Completer {
    cell: OnceCell<PrefixIndex>,
}

impl View for Completer {
    type V = Option<Set<Seq<u8>>>;

    closed spec fn view(&self) -> Option<Set<Seq<u8>>> {
        installed_words(self.cell)
    }
}

/// What is installed after an attempt to install `words`: the first index
/// to be installed stays.
pub open spec fn installed_after(
    installed: Option<Set<Seq<u8>>>,
    words: Set<Seq<u8>>,
) -> Option<Set<Seq<u8>>> {
    if installed is Some {
        installed
    } else {
        Some(words)
    }
}

impl Completer {
    /// A completer with no index installed.
    pub fn new() -> (completer: Completer)
        ensures
            completer@ is None,
    {
        Completer { cell: cell_new() }
    }

    /// Installs `index` if none is installed yet. A second attempt fails and
    /// leaves the first index in place.
    pub fn install(&mut self, index: PrefixIndex) -> (r: Result<(), CompletionError>)
        ensures
            final(self)@ == installed_after(old(self)@, index@),
            old(self)@ is None ==> r is Ok,
            old(self)@ is Some ==> r matches Err(CompletionError::DoubleInitialization),
    {
        match cell_set(&mut self.cell, index) {
            Ok(_) => Ok(()),
            Err(_) => Err(CompletionError::DoubleInitialization),
        }
    }

    /// Builds the index of the vocabulary in `text`, one entry on each line,
    /// and installs it. Fails if an index is installed already, which then
    /// stays.
    pub fn init(&mut self, text: &[u8]) -> (r: Result<(), CompletionError>)
        ensures
            final(self)@ == installed_after(old(self)@, vocabulary_words(lines_of(text@))),
            old(self)@ is None ==> r is Ok,
            old(self)@ is Some ==> r matches Err(CompletionError::DoubleInitialization),
    {
        self.install(PrefixIndex::from_text(text))
    }

    /// The installed index, or the failure that says that there is none.
    pub fn index(&self) -> (r: Result<&PrefixIndex, CompletionError>)
        ensures
            self@ is None ==> r matches Err(CompletionError::IndexUnavailable),
            self@ is Some ==> (r matches Ok(index) && self@ == Some(index@)),
    {
        match cell_get(&self.cell) {
            Some(index) => Ok(index),
            None => Err(CompletionError::IndexUnavailable),
        }
    }

    /// The completions of `query` from the installed index. Fails while no
    /// index is installed, whatever the query.
    pub fn lookup(&self, query: &str) -> (r: Result<Vec<String>, CompletionError>)
        ensures
            self@ is None ==> r matches Err(CompletionError::IndexUnavailable),
            self@ matches Some(words) ==> is_lookup_result(words, query@, r),
            self@ is Some ==> !(r matches Err(CompletionError::IndexUnavailable)) && !(r matches Err(
                CompletionError::DoubleInitialization,
            )),
            r matches Ok(texts) ==> texts@.len() <= LIMIT,
            r matches Ok(texts) ==> forall|i: int|
                0 <= i < texts@.len() ==> self@.unwrap().contains(#[trigger] texts_bytes(texts@)[i])
                    && encode_utf8(query@).is_prefix_of(texts_bytes(texts@)[i]),
            r matches Ok(texts) ==> forall|i: int, j: int|
                0 <= i < texts@.len() && 0 <= j < texts@.len() ==> !is_proper_prefix(
                    #[trigger] texts_bytes(texts@)[i],
                    #[trigger] texts_bytes(texts@)[j],
                ),
            self@ matches Some(words) ==> ((forall|word: Seq<u8>|
                words.contains(word) ==> !encode_utf8(query@).is_prefix_of(word)) ==> (r matches Ok(
                texts,
            ) && texts@.len() == 0)),
    {
        match self.index() {
            Ok(index) => index.lookup(query),
            Err(e) => Err(e),
        }
    }
}

} // verus!
