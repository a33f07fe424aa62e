//! The prefix tree of `trie_rs`, as far as the index uses it. Nothing in this
//! file is proved: each contract restates what the crate's source does.

use trie_rs::{Trie, TrieBuilder};
use vstd::prelude::*;

use crate::prefix::{entries_of, lex_less};

verus! {

#[verifier::external_type_specification]
#[verifier::external_body]
#[verifier::reject_recursive_types(Label)]
pub struct ExTrie<Label>(Trie<Label>);

#[verifier::external_type_specification]
#[verifier::external_body]
#[verifier::reject_recursive_types(Label)]
pub struct ExTrieBuilder<Label>(TrieBuilder<Label>);

/// The nodes of the tree under construction, the root left out: each node by
/// the bytes on the way from the root to it, with its mark, which says that a
/// word ends there.
pub uninterp spec fn builder_nodes(builder: TrieBuilder<u8>) -> Map<Seq<u8>, bool>;

/// The words that a built tree holds: the ways to its marked nodes.
pub uninterp spec fn trie_words(trie: Trie<u8>) -> Set<Seq<u8>>;

/// The nodes after `word` went in. A node that was there stays as it was,
/// mark included; a node that is missing on the way is made, and marked if
/// and only if the word ends at it.
pub open spec fn nodes_after_push(nodes: Map<Seq<u8>, bool>, word: Seq<u8>) -> Map<Seq<u8>, bool> {
    Map::new(
        |path: Seq<u8>| nodes.dom().contains(path) || (0 < path.len() && path.is_prefix_of(word)),
        |path: Seq<u8>|
            if nodes.dom().contains(path) {
                nodes[path]
            } else {
                path.len() == word.len()
            },
    )
}

/// The ways to the marked nodes.
pub open spec fn marked_paths(nodes: Map<Seq<u8>, bool>) -> Set<Seq<u8>> {
    Set::new(|path: Seq<u8>| nodes.dom().contains(path) && nodes[path])
}

/// `listing` holds the words of `words` that begin with `query`, each once,
/// in lexicographic order.
pub open spec fn is_match_listing(
    listing: Seq<Seq<u8>>,
    words: Set<Seq<u8>>,
    query: Seq<u8>,
) -> bool {
    &&& forall|i: int|
        0 <= i < listing.len() ==> words.contains(#[trigger] listing[i]) && query.is_prefix_of(
            listing[i],
        )
    &&& forall|word: Seq<u8>|
        words.contains(word) && query.is_prefix_of(word) ==> #[trigger] listing.contains(word)
    &&& forall|i: int, j: int|
        0 <= i < j < listing.len() ==> lex_less(#[trigger] listing[i], #[trigger] listing[j])
}

/// `TrieBuilder::new`: a tree with a root and nothing else.
#[verifier::external_body]
pub(crate) fn builder_new() -> (builder: TrieBuilder<u8>)
    ensures
        builder_nodes(builder).dom() == Set::<Seq<u8>>::empty(),
{
    TrieBuilder::new()
}

/// `TrieBuilder::push`: walks down from the root along `word` and makes the
/// nodes that are missing, marking the last one only if it had to be made. A
/// word whose way is already there, because it went in before or a longer one
/// did, changes nothing; so does the empty word.
#[verifier::external_body]
pub(crate) fn builder_push(builder: &mut TrieBuilder<u8>, word: &[u8])
    ensures
        builder_nodes(*final(builder)) == nodes_after_push(builder_nodes(*old(builder)), word@),
{
    builder.push(word)
}

/// `TrieBuilder::build`: the finished tree holds the marked nodes of the
/// builder as its words.
#[verifier::external_body]
pub(crate) fn builder_build(builder: &TrieBuilder<u8>) -> (trie: Trie<u8>)
    ensures
        trie_words(trie) == marked_paths(builder_nodes(*builder)),
{
    builder.build()
}

/// `Trie::predictive_search`: the words below the node that `query` leads
/// to, the node's own word first, then those below each child, the children
/// taken by ascending byte. It panics on an empty query.
#[verifier::external_body]
pub(crate) fn trie_predictive_search(trie: &Trie<u8>, query: &[u8]) -> (found: Vec<Vec<u8>>)
    requires
        query@.len() > 0,
    ensures
        is_match_listing(entries_of(found@), trie_words(*trie), query@),
{
    trie.predictive_search(query)
}

} // verus!
