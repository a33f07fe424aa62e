//! The order in which a vocabulary goes into the tree: shorter entries
//! first, so that no entry goes in after one that it is a prefix of.

use vstd::prelude::*;

use crate::prefix::entries_of;

verus! {

/// The entry at position `p` goes in before the one at `q`: it is shorter,
/// or as long and given earlier.
pub open spec fn goes_before(entries: Seq<Seq<u8>>, p: int, q: int) -> bool {
    entries[p].len() < entries[q].len() || (entries[p].len() == entries[q].len() && p < q)
}

/// `order` holds positions of `entries`, each before the next as
/// `goes_before` has it.
pub open spec fn ascending_lengths(order: Seq<usize>, entries: Seq<Seq<u8>>) -> bool {
    &&& forall|k: int| 0 <= k < order.len() ==> #[trigger] order[k] < entries.len()
    &&& forall|a: int, b: int|
        0 <= a < b < order.len() ==> goes_before(
            entries,
            #[trigger] order[a] as int,
            #[trigger] order[b] as int,
        )
}

/// `position` is one of the positions in `order`.
pub open spec fn occurs(order: Seq<usize>, position: int) -> bool {
    exists|k: int| 0 <= k < order.len() && #[trigger] order[k] == position
}

/// Every position from `lo` up to `hi` occurs in `order`.
pub open spec fn covers(order: Seq<usize>, lo: int, hi: int) -> bool {
    forall|i: int| lo <= i < hi ==> #[trigger] occurs(order, i)
}

/// Every position in `order` lies from `lo` up to `hi`.
pub open spec fn within(order: Seq<usize>, lo: int, hi: int) -> bool {
    forall|k: int| 0 <= k < order.len() ==> lo <= #[trigger] order[k] < hi
}

/// Two orders as one, where every position of `left` is below `mid` and
/// every position of `right` is not.
fn merge(
    entries: &Vec<Vec<u8>>,
    left: &Vec<usize>,
    right: &Vec<usize>,
    mid: usize,
) -> (merged: Vec<usize>)
    requires
        ascending_lengths(left@, entries_of(entries@)),
        ascending_lengths(right@, entries_of(entries@)),
        within(left@, 0, mid as int),
        within(right@, mid as int, entries.len() as int),
        left.len() + right.len() <= usize::MAX,
    ensures
        ascending_lengths(merged@, entries_of(entries@)),
        merged.len() == left.len() + right.len(),
        forall|k: int| 0 <= k < left.len() ==> occurs(merged@, #[trigger] left[k] as int),
        forall|k: int| 0 <= k < right.len() ==> occurs(merged@, #[trigger] right[k] as int),
        forall|m: int|
            0 <= m < merged.len() ==> occurs(left@, #[trigger] merged[m] as int) || occurs(
                right@,
                merged[m] as int,
            ),
{
    let ghost lengths = entries_of(entries@);
    let mut merged: Vec<usize> = Vec::new();
    let mut a: usize = 0;
    let mut b: usize = 0;
    while a < left.len() || b < right.len()
        invariant
            lengths == entries_of(entries@),
            ascending_lengths(left@, lengths),
            ascending_lengths(right@, lengths),
            within(left@, 0, mid as int),
            within(right@, mid as int, entries.len() as int),
            a <= left.len(),
            b <= right.len(),
            merged.len() == a + b,
            ascending_lengths(merged@, lengths),
            forall|m: int|
                0 <= m < merged.len() && a < left.len() ==> goes_before(
                    lengths,
                    #[trigger] merged[m] as int,
                    left[a as int] as int,
                ),
            forall|m: int|
                0 <= m < merged.len() && b < right.len() ==> goes_before(
                    lengths,
                    #[trigger] merged[m] as int,
                    right[b as int] as int,
                ),
            forall|k: int| 0 <= k < a ==> occurs(merged@, #[trigger] left[k] as int),
            forall|k: int| 0 <= k < b ==> occurs(merged@, #[trigger] right[k] as int),
            forall|m: int|
                0 <= m < merged.len() ==> occurs(left@, #[trigger] merged[m] as int) || occurs(
                    right@,
                    merged[m] as int,
                ),
        decreases left.len() - a + right.len() - b,
    {
        let ghost before = merged@;
        let take_left = if a == left.len() {
            false
        } else if b == right.len() {
            true
        } else {
            entries[left[a]].len() <= entries[right[b]].len()
        };
        if take_left {
            merged.push(left[a]);
            a += 1;
        } else {
            merged.push(right[b]);
            b += 1;
        }
        proof {
            let last = merged.len() - 1;
            assert(forall|m: int| 0 <= m < before.len() ==> merged@[m] == before[m]);
            assert forall|k: int| 0 <= k < a implies occurs(merged@, #[trigger] left[k] as int) by {
                if take_left && k == a - 1 {
                    assert(merged[last] == left[k]);
                } else {
                    assert(occurs(before, left[k] as int));
                    let m = choose|m: int| 0 <= m < before.len() && #[trigger] before[m] == left[k];
                    assert(merged[m] == left[k]);
                }
            }
            assert forall|k: int| 0 <= k < b implies occurs(merged@, #[trigger] right[k] as int) by {
                if !take_left && k == b - 1 {
                    assert(merged[last] == right[k]);
                } else {
                    assert(occurs(before, right[k] as int));
                    let m = choose|m: int| 0 <= m < before.len() && #[trigger] before[m] == right[k];
                    assert(merged[m] == right[k]);
                }
            }
            assert forall|m: int| 0 <= m < merged.len() implies occurs(
                left@,
                #[trigger] merged[m] as int,
            ) || occurs(right@, merged[m] as int) by {
                if m == last {
                    if take_left {
                        assert(left[a - 1] == merged[m]);
                    } else {
                        assert(right[b - 1] == merged[m]);
                    }
                } else {
                    assert(merged[m] == before[m]);
                }
            }
        }
    }
    merged
}

/// The positions from `lo` up to `hi`, by ascending length of their entries.
fn ordered_range(entries: &Vec<Vec<u8>>, lo: usize, hi: usize) -> (order: Vec<usize>)
    requires
        lo <= hi <= entries.len(),
    ensures
        ascending_lengths(order@, entries_of(entries@)),
        covers(order@, lo as int, hi as int),
        within(order@, lo as int, hi as int),
        order.len() == hi - lo,
    decreases hi - lo,
{
    if hi - lo == 0 {
        Vec::new()
    } else if hi - lo == 1 {
        let mut order: Vec<usize> = Vec::new();
        order.push(lo);
        assert(order@[0] == lo);
        order
    } else {
        let mid: usize = lo + (hi - lo) / 2;
        let left = ordered_range(entries, lo, mid);
        let right = ordered_range(entries, mid, hi);
        let order = merge(entries, &left, &right, mid);
        proof {
            assert forall|i: int| lo <= i < hi implies #[trigger] occurs(order@, i) by {
                if i < mid {
                    assert(occurs(left@, i));
                    let k = choose|k: int| 0 <= k < left.len() && #[trigger] left[k] == i;
                    assert(occurs(order@, left[k] as int));
                } else {
                    assert(occurs(right@, i));
                    let k = choose|k: int| 0 <= k < right.len() && #[trigger] right[k] == i;
                    assert(occurs(order@, right[k] as int));
                }
            }
            assert forall|k: int| 0 <= k < order.len() implies lo <= #[trigger] order[k] < hi by {
                assert(occurs(left@, order[k] as int) || occurs(right@, order[k] as int));
            }
        }
        order
    }
}

/// The positions of `entries`, each once: shorter entries before longer
/// ones, and entries of one length in the order they were given.
pub fn by_length(entries: &Vec<Vec<u8>>) -> (order: Vec<usize>)
    ensures
        ascending_lengths(order@, entries_of(entries@)),
        covers(order@, 0, entries.len() as int),
        order.len() == entries.len(),
{
    ordered_range(entries, 0, entries.len())
}

} // verus!
