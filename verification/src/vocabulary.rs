//! The vocabulary resource: a text with one entry on each line.

use vstd::prelude::*;
use vstd::slice::{slice_subrange, slice_to_vec};

use crate::prefix::entries_of;

verus! {

/// The byte that ends a line.
pub const LINE_FEED: u8 = 10;

/// The byte that may stand before a line feed and then belongs to the line
/// ending.
pub const CARRIAGE_RETURN: u8 = 13;

/// The position of the first line feed in `text`, or the length of `text`
/// where it has none.
pub open spec fn line_end(text: Seq<u8>) -> int
    decreases text.len(),
{
    if text.len() == 0 || text[0] == LINE_FEED {
        0
    } else {
        1 + line_end(text.drop_first())
    }
}

/// `line` without the carriage return at its end, if it has one.
pub open spec fn without_carriage_return(line: Seq<u8>) -> Seq<u8> {
    if line.len() > 0 && line.last() == CARRIAGE_RETURN {
        line.drop_last()
    } else {
        line
    }
}

/// The lines of `text`. A line ends with a line feed, or with a carriage
/// return and a line feed, neither of which belongs to the line; the last
/// line may end with the text instead, and then it is kept whole. A text
/// that ends with a line ending has no empty line after it.
pub open spec fn lines_of(text: Seq<u8>) -> Seq<Seq<u8>>
    decreases text.len(),
{
    let end = line_end(text);
    if text.len() == 0 {
        Seq::empty()
    } else if 0 <= end < text.len() {
        seq![without_carriage_return(text.take(end))] + lines_of(text.skip(end + 1))
    } else {
        seq![text]
    }
}

/// Where the first line feed of a text stands.
proof fn lemma_line_end(text: Seq<u8>, end: int)
    requires
        0 <= end <= text.len(),
        forall|j: int| 0 <= j < end ==> text[j] != LINE_FEED,
        end == text.len() || text[end] == LINE_FEED,
    ensures
        line_end(text) == end,
    decreases end,
{
    if end > 0 {
        lemma_line_end(text.drop_first(), end - 1);
    }
}

/// The lines of `text`, as `lines_of` defines them.
pub fn lines(text: &[u8]) -> (entries: Vec<Vec<u8>>)
    ensures
        entries_of(entries@) == lines_of(text@),
{
    let mut entries: Vec<Vec<u8>> = Vec::new();
    let mut start: usize = 0;
    let mut i: usize = 0;
    assert(text@.skip(0) =~= text@);
    assert(entries_of(entries@) + lines_of(text@) =~= lines_of(text@));
    while i < text.len()
        invariant
            start <= i <= text.len(),
            forall|j: int| start <= j < i ==> text@[j] != LINE_FEED,
            lines_of(text@) == entries_of(entries@) + lines_of(text@.skip(start as int)),
        decreases text.len() - i,
    {
        if text[i] == LINE_FEED {
            let mut end: usize = i;
            if end > start && text[end - 1] == CARRIAGE_RETURN {
                end -= 1;
            }
            let line = slice_to_vec(slice_subrange(text, start, end));
            proof {
                let rest = text@.skip(start as int);
                lemma_line_end(rest, i - start);
                assert(rest.take(i - start) =~= text@.subrange(start as int, i as int));
                assert(rest.skip(i - start + 1) =~= text@.skip(i + 1));
                assert(line@ =~= without_carriage_return(rest.take(i - start)));
                assert(entries_of(entries@.push(line)) =~= entries_of(entries@) + seq![line@]);
                assert(entries_of(entries@) + (seq![line@] + lines_of(text@.skip(i + 1)))
                    =~= entries_of(entries@) + seq![line@] + lines_of(text@.skip(i + 1)));
            }
            entries.push(line);
            start = i + 1;
        }
        i += 1;
    }
    if start < text.len() {
        let line = slice_to_vec(slice_subrange(text, start, text.len()));
        proof {
            let rest = text@.skip(start as int);
            lemma_line_end(rest, rest.len() as int);
            assert(line@ =~= rest);
            assert(entries_of(entries@.push(line)) =~= entries_of(entries@) + seq![line@]);
        }
        entries.push(line);
    } else {
        assert(entries_of(entries@) + lines_of(text@.skip(start as int)) =~= entries_of(entries@));
    }
    entries
}

} // verus!
