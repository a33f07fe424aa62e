//! Texts and their bytes: what a query returns is text, what the index holds
//! is bytes.

use std::string::FromUtf8Error;
use vstd::prelude::*;
use vstd::slice::slice_to_vec;
use vstd::utf8::{encode_utf8, valid_utf8};

use crate::error::CompletionError;
use crate::prefix::entries_of;

verus! {

#[verifier::external_type_specification]
#[verifier::external_body]
pub struct ExFromUtf8Error(FromUtf8Error);

/// The bytes of each text, in order.
pub open spec fn texts_bytes(texts: Seq<String>) -> Seq<Seq<u8>> {
    Seq::new(texts.len(), |i: int| encode_utf8(texts[i]@))
}

/// `String::from_utf8`: succeeds exactly on valid UTF-8, and the text then
/// has the given bytes as its encoding.
#[verifier::external_body]
fn string_from_utf8(bytes: Vec<u8>) -> (r: Result<String, FromUtf8Error>)
    ensures
        r is Ok <==> valid_utf8(bytes@),
        r matches Ok(text) ==> encode_utf8(text@) == bytes@,
{
    String::from_utf8(bytes)
}

/// Every entry is valid UTF-8.
pub open spec fn all_valid_utf8(entries: Seq<Seq<u8>>) -> bool {
    forall|i: int| 0 <= i < entries.len() ==> valid_utf8(#[trigger] entries[i])
}

/// The entries as texts, in order. One entry that is not valid UTF-8 fails
/// the whole conversion: no partial result is returned.
pub fn decode_entries(entries: &Vec<Vec<u8>>) -> (r: Result<Vec<String>, CompletionError>)
    ensures
        all_valid_utf8(entries_of(entries@)) ==> (r matches Ok(texts) && texts_bytes(texts@)
            == entries_of(entries@)),
        !all_valid_utf8(entries_of(entries@)) ==> r matches Err(
            CompletionError::EncodingInvariantViolation,
        ),
{
    let mut texts: Vec<String> = Vec::new();
    let mut i: usize = 0;
    while i < entries.len()
        invariant
            i <= entries.len(),
            texts.len() == i,
            forall|k: int| 0 <= k < i ==> valid_utf8(#[trigger] entries_of(entries@)[k]),
            forall|k: int| 0 <= k < i ==> encode_utf8(#[trigger] texts@[k]@) == entries@[k]@,
        decreases entries.len() - i,
    {
        match string_from_utf8(slice_to_vec(entries[i].as_slice())) {
            Ok(text) => {
                texts.push(text);
            },
            Err(_) => {
                assert(!valid_utf8(entries_of(entries@)[i as int]));
                return Err(CompletionError::EncodingInvariantViolation);
            },
        }
        i += 1;
    }
    assert(texts_bytes(texts@) =~= entries_of(entries@));
    Ok(texts)
}

} // verus!
