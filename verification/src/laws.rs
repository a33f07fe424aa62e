//! What holds of every result, stated over the definitions that the
//! contracts of the index use.

use vstd::prelude::*;
use vstd::utf8::encode_utf8;

use crate::completer::installed_after;
use crate::prefix::{is_proper_prefix, lex_less};
use crate::reduction::{reduced, stands_alone, without_extensions, LIMIT};
use crate::trie::is_match_listing;

verus! {

/// A text has no bytes exactly when it has no characters.
pub proof fn lemma_encoding_of_nothing(text: Seq<char>)
    ensures
        encode_utf8(text).len() == 0 <==> text.len() == 0,
{
}

/// A result is never longer than `LIMIT`, nor than the raw matches.
pub proof fn lemma_reduced_is_bounded(entries: Seq<Seq<u8>>)
    ensures
        reduced(entries).len() <= LIMIT,
        reduced(entries).len() <= entries.len(),
{
    entries.lemma_filter_len(stands_alone(entries));
}

/// Every entry of a result is one of the raw matches.
pub proof fn lemma_reduced_keeps_matches(entries: Seq<Seq<u8>>)
    ensures
        forall|i: int|
            0 <= i < reduced(entries).len() ==> entries.contains(#[trigger] reduced(entries)[i]),
{
    let kept = without_extensions(entries);
    assert forall|i: int| 0 <= i < reduced(entries).len() implies entries.contains(
        #[trigger] reduced(entries)[i],
    ) by {
        assert(reduced(entries)[i] == kept[i]);
        assert(kept.contains(kept[i]));
        entries.lemma_filter_contains_rev(stands_alone(entries), kept[i]);
    }
}

/// No entry of a result is a proper prefix of another entry of it.
pub proof fn lemma_reduced_is_prefix_free(entries: Seq<Seq<u8>>)
    ensures
        forall|i: int, j: int|
            0 <= i < reduced(entries).len() && 0 <= j < reduced(entries).len()
                ==> !is_proper_prefix(#[trigger] reduced(entries)[i], #[trigger] reduced(entries)[j]),
{
    let kept = without_extensions(entries);
    lemma_reduced_keeps_matches(entries);
    assert forall|i: int, j: int|
        0 <= i < reduced(entries).len() && 0 <= j < reduced(entries).len()
    implies !is_proper_prefix(
        #[trigger] reduced(entries)[i],
        #[trigger] reduced(entries)[j],
    ) by {
        assert(reduced(entries)[j] == kept[j]);
        entries.lemma_filter_pred(stands_alone(entries), j);
        assert(entries.contains(reduced(entries)[i]));
    }
}

/// Raw matches of at most `LIMIT` entries are filtered and not cut.
pub proof fn lemma_reduced_within_limit(entries: Seq<Seq<u8>>)
    requires
        entries.len() <= LIMIT,
    ensures
        reduced(entries) == without_extensions(entries),
{
    entries.lemma_filter_len(stands_alone(entries));
}

/// Every entry of the result of a query is a word of the index and begins
/// with the query.
pub proof fn lemma_results_begin_with_query(
    listing: Seq<Seq<u8>>,
    words: Set<Seq<u8>>,
    query: Seq<u8>,
)
    requires
        is_match_listing(listing, words, query),
    ensures
        forall|i: int|
            0 <= i < reduced(listing).len() ==> words.contains(#[trigger] reduced(listing)[i])
                && query.is_prefix_of(reduced(listing)[i]),
{
    lemma_reduced_keeps_matches(listing);
}

/// A query that no word of the index begins with has an empty result.
pub proof fn lemma_no_match_no_result(listing: Seq<Seq<u8>>, words: Set<Seq<u8>>, query: Seq<u8>)
    requires
        is_match_listing(listing, words, query),
        forall|word: Seq<u8>| words.contains(word) ==> !query.is_prefix_of(word),
    ensures
        listing.len() == 0,
        reduced(listing).len() == 0,
{
    if listing.len() > 0 {
        assert(words.contains(listing[0]));
    }
    lemma_reduced_is_bounded(listing);
}

/// Once an index is installed it stays: the first attempt on an empty
/// completer installs its words, and no attempt after that changes what is
/// installed, so that later queries are answered from the first index.
pub proof fn lemma_first_index_stays(
    installed: Option<Set<Seq<u8>>>,
    first: Set<Seq<u8>>,
    second: Set<Seq<u8>>,
)
    ensures
        installed_after(None, first) == Some(first),
        installed_after(installed, first) is Some,
        installed_after(installed_after(installed, first), second) == installed_after(
            installed,
            first,
        ),
{
}

/// No byte string comes before itself.
pub proof fn lemma_lex_less_is_irreflexive(a: Seq<u8>)
    ensures
        !lex_less(a, a),
    decreases a.len(),
{
    if a.len() > 0 {
        lemma_lex_less_is_irreflexive(a.drop_first());
    }
}

/// What comes before a byte string comes before all that it comes before.
pub proof fn lemma_lex_less_is_transitive(a: Seq<u8>, b: Seq<u8>, c: Seq<u8>)
    requires
        lex_less(a, b),
        lex_less(b, c),
    ensures
        lex_less(a, c),
    decreases a.len(),
{
    if a.len() > 0 && a[0] == b[0] && b[0] == c[0] {
        lemma_lex_less_is_transitive(a.drop_first(), b.drop_first(), c.drop_first());
    }
}

/// Every entry comes before the entries after it.
pub open spec fn strictly_ascending(entries: Seq<Seq<u8>>) -> bool {
    forall|i: int, j: int|
        0 <= i < j < entries.len() ==> lex_less(#[trigger] entries[i], #[trigger] entries[j])
}

/// Two strictly ascending sequences that hold the same entries are equal.
pub proof fn lemma_ascending_is_unique(first: Seq<Seq<u8>>, second: Seq<Seq<u8>>)
    requires
        strictly_ascending(first),
        strictly_ascending(second),
        forall|entry: Seq<u8>| first.contains(entry) <==> second.contains(entry),
    ensures
        first == second,
    decreases first.len(),
{
    if first.len() == 0 {
        if second.len() > 0 {
            assert(second.contains(second[0]));
        }
        assert(first =~= second);
    } else {
        assert(first.contains(first[0]));
        assert(second.contains(first[0]));
        assert(second.contains(second[0]));
        assert(first.contains(second[0]));
        let k = choose|k: int| 0 <= k < second.len() && second[k] == first[0];
        let m = choose|m: int| 0 <= m < first.len() && first[m] == second[0];
        lemma_lex_less_is_irreflexive(first[0]);
        if k > 0 {
            assert(lex_less(second[0], second[k]));
            if m > 0 {
                assert(lex_less(first[0], first[m]));
                lemma_lex_less_is_transitive(first[0], second[0], first[0]);
            }
        }
        assert(first[0] == second[0]);
        let first_rest = first.drop_first();
        let second_rest = second.drop_first();
        assert forall|entry: Seq<u8>| first_rest.contains(entry) <==> second_rest.contains(
            entry,
        ) by {
            lemma_lex_less_is_irreflexive(entry);
            if first_rest.contains(entry) {
                let i = choose|i: int| 0 <= i < first_rest.len() && first_rest[i] == entry;
                assert(first[i + 1] == entry);
                assert(first.contains(entry));
                let j = choose|j: int| 0 <= j < second.len() && second[j] == entry;
                if j == 0 {
                    assert(lex_less(first[0], first[i + 1]));
                }
                assert(second_rest[j - 1] == entry);
            }
            if second_rest.contains(entry) {
                let i = choose|i: int| 0 <= i < second_rest.len() && second_rest[i] == entry;
                assert(second[i + 1] == entry);
                assert(second.contains(entry));
                let j = choose|j: int| 0 <= j < first.len() && first[j] == entry;
                if j == 0 {
                    assert(lex_less(second[0], second[i + 1]));
                }
                assert(first_rest[j - 1] == entry);
            }
        }
        assert(strictly_ascending(first_rest)) by {
            assert forall|i: int, j: int| 0 <= i < j < first_rest.len() implies lex_less(
                #[trigger] first_rest[i],
                #[trigger] first_rest[j],
            ) by {
                assert(lex_less(first[i + 1], first[j + 1]));
            }
        }
        assert(strictly_ascending(second_rest)) by {
            assert forall|i: int, j: int| 0 <= i < j < second_rest.len() implies lex_less(
                #[trigger] second_rest[i],
                #[trigger] second_rest[j],
            ) by {
                assert(lex_less(second[i + 1], second[j + 1]));
            }
        }
        lemma_ascending_is_unique(first_rest, second_rest);
        assert(first =~= seq![first[0]] + first_rest);
        assert(second =~= seq![second[0]] + second_rest);
    }
}

/// The raw matches of a query are determined by the words of the index and
/// the query: there is one listing of them, and so one result.
pub proof fn lemma_match_listing_is_unique(
    first: Seq<Seq<u8>>,
    second: Seq<Seq<u8>>,
    words: Set<Seq<u8>>,
    query: Seq<u8>,
)
    requires
        is_match_listing(first, words, query),
        is_match_listing(second, words, query),
    ensures
        first == second,
        reduced(first) == reduced(second),
{
    assert forall|entry: Seq<u8>| first.contains(entry) <==> second.contains(entry) by {
        if first.contains(entry) {
            let i = choose|i: int| 0 <= i < first.len() && first[i] == entry;
            assert(words.contains(first[i]) && query.is_prefix_of(first[i]));
        }
        if second.contains(entry) {
            let i = choose|i: int| 0 <= i < second.len() && second[i] == entry;
            assert(words.contains(second[i]) && query.is_prefix_of(second[i]));
        }
    }
    lemma_ascending_is_unique(first, second);
}

} // verus!
