//! Byte strings: prefixes and order.

use vstd::prelude::*;

verus! {

/// The byte strings that a vector of vectors holds.
pub open spec fn entries_of(entries: Seq<Vec<u8>>) -> Seq<Seq<u8>> {
    Seq::new(entries.len(), |i: int| entries[i]@)
}

/// `shorter` is a prefix of `longer` and differs from it.
pub open spec fn is_proper_prefix(shorter: Seq<u8>, longer: Seq<u8>) -> bool {
    shorter.len() < longer.len() && shorter.is_prefix_of(longer)
}

/// The lexicographic order of byte strings: a proper prefix comes before its
/// extensions, and otherwise the first differing byte decides.
pub open spec fn lex_less(a: Seq<u8>, b: Seq<u8>) -> bool
    decreases a.len(),
{
    if b.len() == 0 {
        false
    } else if a.len() == 0 {
        true
    } else if a[0] != b[0] {
        a[0] < b[0]
    } else {
        lex_less(a.drop_first(), b.drop_first())
    }
}

/// Whether `text` begins with `prefix`.
pub fn starts_with(text: &[u8], prefix: &[u8]) -> (r: bool)
    ensures
        r == prefix@.is_prefix_of(text@),
{
    if prefix.len() > text.len() {
        return false;
    }
    let mut i: usize = 0;
    while i < prefix.len()
        invariant
            i <= prefix.len() <= text.len(),
            forall|j: int| 0 <= j < i ==> prefix@[j] == text@[j],
        decreases prefix.len() - i,
    {
        if prefix[i] != text[i] {
            assert(text@.subrange(0, prefix@.len() as int)[i as int] != prefix@[i as int]);
            return false;
        }
        i += 1;
    }
    assert(prefix@ =~= text@.subrange(0, prefix@.len() as int));
    true
}

/// Whether `shorter` is a prefix of `longer` other than `longer` itself.
pub fn starts_with_other(longer: &[u8], shorter: &[u8]) -> (r: bool)
    ensures
        r == is_proper_prefix(shorter@, longer@),
{
    shorter.len() < longer.len() && starts_with(longer, shorter)
}

} // verus!
