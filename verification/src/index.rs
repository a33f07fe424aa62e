//! The prefix index: the vocabulary in a prefix tree, built once and then
//! only read.

use trie_rs::Trie;
use vstd::prelude::*;
use vstd::utf8::encode_utf8;

use crate::error::CompletionError;
use crate::laws::{
    lemma_encoding_of_nothing, lemma_no_match_no_result, lemma_reduced_is_bounded,
    lemma_reduced_is_prefix_free, lemma_results_begin_with_query,
};
use crate::order::{ascending_lengths, by_length, occurs};
use crate::prefix::{entries_of, is_proper_prefix};
use crate::reduction::{reduced, result_set, LIMIT};
use crate::text::{all_valid_utf8, decode_entries, texts_bytes};
use crate::trie::{
    builder_build, builder_new, builder_nodes, builder_push, is_match_listing, marked_paths,
    nodes_after_push, trie_predictive_search, trie_words,
};
use crate::vocabulary::{lines, lines_of};

verus! {

/// An immutable index over a vocabulary. Its view is the set of words in it.
pub struct PrefixIndex {
    trie: Trie<u8>,
}

impl View for PrefixIndex {
    type V = Set<Seq<u8>>;

    closed spec fn view(&self) -> Set<Seq<u8>> {
        trie_words(self.trie)
    }
}

/// The words of a vocabulary: its entries but for the empty one, each once.
pub open spec fn vocabulary_words(entries: Seq<Seq<u8>>) -> Set<Seq<u8>> {
    Set::new(|word: Seq<u8>| word.len() > 0 && entries.contains(word))
}

/// `word` is one of the first `count` entries along `order`.
spec fn went_in(word: Seq<u8>, entries: Seq<Seq<u8>>, order: Seq<usize>, count: int) -> bool {
    exists|j: int| 0 <= j < count && entries[#[trigger] order[j] as int] == word
}

/// `path` is a prefix of one of the first `count` entries along `order`.
spec fn leads_in(path: Seq<u8>, entries: Seq<Seq<u8>>, order: Seq<usize>, count: int) -> bool {
    exists|j: int| 0 <= j < count && path.is_prefix_of(entries[#[trigger] order[j] as int])
}

/// The tree after the first `count` entries along `order` went in: its
/// nodes lie on the way to them, and the marked ones are those entries.
spec fn holds_first(
    nodes: Map<Seq<u8>, bool>,
    entries: Seq<Seq<u8>>,
    order: Seq<usize>,
    count: int,
) -> bool {
    &&& forall|path: Seq<u8>| #[trigger]
        nodes.dom().contains(path) ==> path.len() > 0 && leads_in(path, entries, order, count)
    &&& forall|path: Seq<u8>|
        path.len() > 0 && went_in(path, entries, order, count) ==> #[trigger] nodes.dom().contains(
            path,
        ) && nodes[path]
    &&& forall|path: Seq<u8>| #[trigger]
        nodes.dom().contains(path) && nodes[path] ==> went_in(path, entries, order, count)
}

/// One more entry of an order of ascending lengths goes in, and the tree
/// holds it besides the ones before: an entry whose way is already there is
/// as long as the entry that the way leads to, and so is that entry.
proof fn lemma_next_goes_in(
    nodes: Map<Seq<u8>, bool>,
    entries: Seq<Seq<u8>>,
    order: Seq<usize>,
    count: int,
)
    requires
        ascending_lengths(order, entries),
        0 <= count < order.len(),
        holds_first(nodes, entries, order, count),
    ensures
        holds_first(nodes_after_push(nodes, entries[order[count] as int]), entries, order, count + 1),
{
    let word = entries[order[count] as int];
    let after = nodes_after_push(nodes, word);
    assert forall|path: Seq<u8>| #[trigger] after.dom().contains(path) implies path.len() > 0
        && leads_in(path, entries, order, count + 1) by {
        if nodes.dom().contains(path) {
            let j = choose|j: int|
                0 <= j < count && path.is_prefix_of(entries[#[trigger] order[j] as int]);
            assert(path.is_prefix_of(entries[order[j] as int]));
        } else {
            assert(path.is_prefix_of(entries[order[count] as int]));
        }
    }
    assert forall|path: Seq<u8>| path.len() > 0 && went_in(path, entries, order, count + 1) implies
        #[trigger] after.dom().contains(path) && after[path] by {
        let j = choose|j: int| 0 <= j < count + 1 && entries[#[trigger] order[j] as int] == path;
        if j < count {
            assert(went_in(path, entries, order, count));
        } else {
            assert(path == word);
            assert(path.is_prefix_of(word));
            if nodes.dom().contains(path) {
                let i = choose|i: int|
                    0 <= i < count && path.is_prefix_of(entries[#[trigger] order[i] as int]);
                let longer = entries[order[i] as int];
                assert(longer.len() <= word.len());
                assert(longer =~= path);
                assert(went_in(path, entries, order, count));
            }
        }
    }
    assert forall|path: Seq<u8>| #[trigger] after.dom().contains(path) && after[path] implies went_in(
        path,
        entries,
        order,
        count + 1,
    ) by {
        if nodes.dom().contains(path) {
            let j = choose|j: int| 0 <= j < count && entries[#[trigger] order[j] as int] == path;
            assert(entries[order[j] as int] == path);
        } else {
            assert(path =~= word);
            assert(entries[order[count] as int] == path);
        }
    }
}

/// `r` is what a query returns whose raw matches are `listing`: the reduced
/// matches as texts, or a failure where a match is not UTF-8 text.
pub open spec fn answers(r: Result<Vec<String>, CompletionError>, listing: Seq<Seq<u8>>) -> bool {
    if all_valid_utf8(listing) {
        r matches Ok(texts) && texts_bytes(texts@) == reduced(listing)
    } else {
        r matches Err(CompletionError::EncodingInvariantViolation)
    }
}

/// `r` is what the query `query` returns from an index that holds `words`:
/// nothing for the empty query, and else the answer to the raw matches.
pub open spec fn is_lookup_result(
    words: Set<Seq<u8>>,
    query: Seq<char>,
    r: Result<Vec<String>, CompletionError>,
) -> bool {
    if query.len() == 0 {
        r matches Ok(texts) && texts@.len() == 0
    } else {
        exists|listing: Seq<Seq<u8>>|
            #[trigger] is_match_listing(listing, words, encode_utf8(query)) && answers(r, listing)
    }
}

impl PrefixIndex {
    /// The index of a vocabulary. Entries go in by ascending length, so that
    /// the tree holds each of them, in whatever order they are given; an entry
    /// that occurs twice is held once, and the empty entry is not held.
    pub fn build(vocabulary: &Vec<Vec<u8>>) -> (index: PrefixIndex)
        ensures
            index@ == vocabulary_words(entries_of(vocabulary@)),
    {
        let ghost entries = entries_of(vocabulary@);
        let order = by_length(vocabulary);
        let mut builder = builder_new();
        let mut count: usize = 0;
        assert(builder_nodes(builder) =~= Map::empty());
        while count < order.len()
            invariant
                entries == entries_of(vocabulary@),
                ascending_lengths(order@, entries),
                count <= order.len(),
                holds_first(builder_nodes(builder), entries, order@, count as int),
            decreases order.len() - count,
        {
            proof {
                lemma_next_goes_in(builder_nodes(builder), entries, order@, count as int);
            }
            builder_push(&mut builder, vocabulary[order[count]].as_slice());
            count += 1;
        }
        let trie = builder_build(&builder);
        proof {
            let nodes = builder_nodes(builder);
            assert forall|word: Seq<u8>| vocabulary_words(entries).contains(word) implies marked_paths(
                nodes,
            ).contains(word) by {
                let i = choose|i: int| 0 <= i < entries.len() && entries[i] == word;
                assert(occurs(order@, i));
                let j = choose|j: int| 0 <= j < order.len() && #[trigger] order@[j] == i;
                assert(entries[order@[j] as int] == word);
                assert(went_in(word, entries, order@, count as int));
            }
            assert forall|word: Seq<u8>| marked_paths(nodes).contains(word) implies vocabulary_words(
                entries,
            ).contains(word) by {
                assert(nodes.dom().contains(word));
                let j = choose|j: int|
                    0 <= j < count && entries[#[trigger] order@[j] as int] == word;
                assert(entries.contains(entries[order@[j] as int]));
            }
            assert(marked_paths(nodes) =~= vocabulary_words(entries));
        }
        PrefixIndex { trie }
    }

    /// The index of the vocabulary in `text`, one entry on each line.
    pub fn from_text(text: &[u8]) -> (index: PrefixIndex)
        ensures
            index@ == vocabulary_words(lines_of(text@)),
    {
        let entries = lines(text);
        PrefixIndex::build(&entries)
    }

    /// The words of the index that begin with `query`, the query itself
    /// among them if it is a word, in lexicographic order.
    pub fn predictive_search(&self, query: &[u8]) -> (found: Vec<Vec<u8>>)
        requires
            query@.len() > 0,
        ensures
            is_match_listing(entries_of(found@), self@, query@),
    {
        trie_predictive_search(&self.trie, query)
    }

    /// The completions of `query`: the words that begin with it, without
    /// those that extend another of them, and at most `LIMIT` of them. The
    /// empty query has none.
    pub fn lookup(&self, query: &str) -> (r: Result<Vec<String>, CompletionError>)
        ensures
            is_lookup_result(self@, query@, r),
            r matches Err(e) ==> e == CompletionError::EncodingInvariantViolation,
            r matches Ok(texts) ==> texts@.len() <= LIMIT,
            r matches Ok(texts) ==> forall|i: int|
                0 <= i < texts@.len() ==> self@.contains(#[trigger] texts_bytes(texts@)[i])
                    && encode_utf8(query@).is_prefix_of(texts_bytes(texts@)[i]),
            r matches Ok(texts) ==> forall|i: int, j: int|
                0 <= i < texts@.len() && 0 <= j < texts@.len() ==> !is_proper_prefix(
                    #[trigger] texts_bytes(texts@)[i],
                    #[trigger] texts_bytes(texts@)[j],
                ),
            (forall|word: Seq<u8>| self@.contains(word) ==> !encode_utf8(query@).is_prefix_of(word))
                ==> (r matches Ok(texts) && texts@.len() == 0),
    {
        proof {
            lemma_encoding_of_nothing(query@);
        }
        let bytes = query.as_bytes();
        if bytes.len() == 0 {
            return Ok(Vec::new());
        }
        let found = self.predictive_search(bytes);
        let ghost listing = entries_of(found@);
        proof {
            lemma_reduced_is_bounded(listing);
            lemma_results_begin_with_query(listing, self@, encode_utf8(query@));
            lemma_reduced_is_prefix_free(listing);
            if forall|word: Seq<u8>|
                self@.contains(word) ==> !encode_utf8(query@).is_prefix_of(word) {
                lemma_no_match_no_result(listing, self@, encode_utf8(query@));
            }
        }
        let r = match decode_entries(&found) {
            Ok(texts) => Ok(result_set(&texts)),
            Err(e) => Err(e),
        };
        assert(is_match_listing(listing, self@, encode_utf8(query@)) && answers(r, listing));
        r
    }
}

} // verus!
