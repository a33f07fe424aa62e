//! From the raw matches of a search to what a query returns: entries that
//! extend another match are dropped, and the rest is cut at a fixed count.

use vstd::prelude::*;

use crate::prefix::{is_proper_prefix, starts_with_other};
use crate::text::texts_bytes;

verus! {

/// The most entries that a query returns.
pub const LIMIT: usize = 1000;

/// Some entry of `entries` is a proper prefix of `entry`.
pub open spec fn extends_another(entry: Seq<u8>, entries: Seq<Seq<u8>>) -> bool {
    exists|j: int| 0 <= j < entries.len() && is_proper_prefix(#[trigger] entries[j], entry)
}

/// The test that an entry passes when no entry of `entries` is a proper
/// prefix of it.
pub open spec fn stands_alone(entries: Seq<Seq<u8>>) -> spec_fn(Seq<u8>) -> bool {
    |entry: Seq<u8>| !extends_another(entry, entries)
}

/// `entries` without those that extend another of them, the order kept.
pub open spec fn without_extensions(entries: Seq<Seq<u8>>) -> Seq<Seq<u8>> {
    entries.filter(stands_alone(entries))
}

/// The first `limit` entries of `without_extensions(entries)`, or all of
/// them where they are fewer.
pub open spec fn first_without_extensions(entries: Seq<Seq<u8>>, limit: int) -> Seq<Seq<u8>> {
    let kept = without_extensions(entries);
    if kept.len() > limit {
        kept.take(limit)
    } else {
        kept
    }
}

/// What a query returns for the raw matches `entries`.
pub open spec fn reduced(entries: Seq<Seq<u8>>) -> Seq<Seq<u8>> {
    first_without_extensions(entries, LIMIT as int)
}

/// Whether some text of `texts` is a proper prefix of `entry`.
fn extends_some(entry: &[u8], texts: &Vec<String>) -> (r: bool)
    ensures
        r == extends_another(entry@, texts_bytes(texts@)),
{
    let mut j: usize = 0;
    while j < texts.len()
        invariant
            j <= texts.len(),
            forall|k: int| 0 <= k < j ==> !is_proper_prefix(#[trigger] texts_bytes(texts@)[k], entry@),
        decreases texts.len() - j,
    {
        if starts_with_other(entry, texts[j].as_str().as_bytes()) {
            assert(is_proper_prefix(texts_bytes(texts@)[j as int], entry@));
            return true;
        }
        j += 1;
    }
    false
}

/// The texts that pass the redundancy filter, up to `limit` of them.
fn filter_first(texts: &Vec<String>, limit: usize) -> (kept: Vec<String>)
    ensures
        texts_bytes(kept@) == first_without_extensions(texts_bytes(texts@), limit as int),
{
    let ghost entries = texts_bytes(texts@);
    let ghost alone = stands_alone(entries);
    let mut kept: Vec<String> = Vec::new();
    let mut i: usize = 0;
    assert(entries.take(0) =~= Seq::<Seq<u8>>::empty());
    assert(texts_bytes(kept@) =~= Seq::<Seq<u8>>::empty());
    proof {
        entries.take(0).lemma_filter_len(alone);
    }
    while i < texts.len() && kept.len() < limit
        invariant
            i <= texts.len(),
            kept.len() <= limit,
            entries == texts_bytes(texts@),
            alone == stands_alone(entries),
            texts_bytes(kept@) == entries.take(i as int).filter(alone),
        decreases texts.len() - i,
    {
        let redundant = extends_some(texts[i].as_str().as_bytes(), texts);
        proof {
            assert(entries.take(i + 1) =~= entries.take(i as int).push(entries[i as int]));
            entries.take(i as int).lemma_filter_push(entries[i as int], alone);
        }
        if !redundant {
            let ghost before = kept@;
            kept.push(texts[i].clone());
            assert(texts_bytes(kept@) =~= texts_bytes(before).push(entries[i as int]));
        }
        i += 1;
    }
    proof {
        let rest = entries.skip(i as int);
        assert(entries =~= entries.take(i as int) + rest);
        Seq::filter_distributes_over_add(entries.take(i as int), rest, alone);
        let all = entries.filter(alone);
        assert(all == texts_bytes(kept@) + rest.filter(alone));
        if i == texts.len() {
            assert(rest =~= Seq::<Seq<u8>>::empty());
            rest.lemma_filter_len(alone);
            assert(all =~= texts_bytes(kept@));
        } else {
            assert(kept.len() == limit);
            assert(all.take(limit as int) =~= texts_bytes(kept@));
        }
    }
    kept
}

/// The redundancy filter: the texts of which no other is a proper prefix, in
/// the order they came in. Equal texts do not drop each other.
pub fn prefixes_only(texts: &Vec<String>) -> (kept: Vec<String>)
    ensures
        texts_bytes(kept@) == without_extensions(texts_bytes(texts@)),
{
    proof {
        texts_bytes(texts@).lemma_filter_len(stands_alone(texts_bytes(texts@)));
    }
    filter_first(texts, texts.len())
}

/// The result of a query whose raw matches are `matches`: the redundancy
/// filter, then the first `LIMIT` of what passes it.
pub fn result_set(matches: &Vec<String>) -> (kept: Vec<String>)
    ensures
        texts_bytes(kept@) == reduced(texts_bytes(matches@)),
{
    filter_first(matches, LIMIT)
}

} // verus!
