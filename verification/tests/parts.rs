use prose_complete::error::CompletionError;
use prose_complete::index::PrefixIndex;
use prose_complete::order::by_length;
use prose_complete::prefix::{starts_with, starts_with_other};
use prose_complete::reduction::{prefixes_only, result_set, LIMIT};
use prose_complete::text::decode_entries;
use prose_complete::vocabulary::lines;

fn byte_lines(list: &[&str]) -> Vec<Vec<u8>> {
    list.iter().map(|w| w.as_bytes().to_vec()).collect()
}

fn strings(list: &[&str]) -> Vec<String> {
    list.iter().map(|w| w.to_string()).collect()
}

#[test]
fn lines_are_split_at_line_feeds() {
    assert_eq!(lines(b"cat\ncar\ndog"), byte_lines(&["cat", "car", "dog"]));
    assert_eq!(lines(b"cat\ncar\ndog\n"), byte_lines(&["cat", "car", "dog"]));
}

#[test]
fn lines_of_an_empty_text_are_none() {
    assert_eq!(lines(b""), Vec::<Vec<u8>>::new());
}

#[test]
fn empty_lines_are_kept() {
    assert_eq!(lines(b"\n"), byte_lines(&[""]));
    assert_eq!(lines(b"\n\n"), byte_lines(&["", ""]));
    assert_eq!(lines(b"a\n\nb"), byte_lines(&["a", "", "b"]));
    assert_eq!(lines(b"\na"), byte_lines(&["", "a"]));
}

#[test]
fn a_carriage_return_before_a_line_feed_ends_the_line_too() {
    assert_eq!(lines(b"a\r\nb\r\n"), byte_lines(&["a", "b"]));
    assert_eq!(lines(b"\r\n"), byte_lines(&[""]));
    assert_eq!(lines(b"a\r\r\nb"), byte_lines(&["a\r", "b"]));
}

#[test]
fn a_bare_carriage_return_stays_in_the_line() {
    assert_eq!(lines(b"a\rb\nc"), byte_lines(&["a\rb", "c"]));
    assert_eq!(lines(b"a\r"), byte_lines(&["a\r"]));
    assert_eq!(lines(b"a\nb\r"), byte_lines(&["a", "b\r"]));
}

#[test]
fn lines_agree_with_the_lines_of_str() {
    for text in [
        "", "\n", "a", "a\n", "a\r\n", "a\r", "\r", "\r\n\r\n", "one\ntwo\r\nthree", "x\n\ny\n\n",
        "tr\u{e8}s\nbien\r\n", "\n\r\n\r", "a\r\r\n",
    ] {
        let expected: Vec<Vec<u8>> = text.lines().map(|l| l.as_bytes().to_vec()).collect();
        assert_eq!(lines(text.as_bytes()), expected);
    }
}

#[test]
fn from_text_indexes_each_line() {
    let index = PrefixIndex::from_text(b"cart\r\ncar\n\ncat\ndog");
    assert_eq!(index.predictive_search(b"ca"), byte_lines(&["car", "cart", "cat"]));
    assert_eq!(index.predictive_search(b"d"), byte_lines(&["dog"]));
}

#[test]
fn starts_with_is_the_prefix_test() {
    assert!(starts_with(b"cart", b"car"));
    assert!(starts_with(b"cart", b"cart"));
    assert!(starts_with(b"cart", b""));
    assert!(starts_with(b"", b""));
    assert!(!starts_with(b"car", b"cart"));
    assert!(!starts_with(b"cart", b"cat"));
    assert!(!starts_with(b"", b"c"));
}

#[test]
fn starts_with_other_leaves_out_the_equal_one() {
    assert!(starts_with_other(b"cart", b"car"));
    assert!(starts_with_other(b"cart", b""));
    assert!(!starts_with_other(b"cart", b"cart"));
    assert!(!starts_with_other(b"", b""));
    assert!(!starts_with_other(b"car", b"cart"));
    assert!(!starts_with_other(b"cart", b"cat"));
}

#[test]
fn by_length_puts_shorter_entries_first() {
    let entries = byte_lines(&["apple", "a", "app", "", "to", "banana"]);
    let order = by_length(&entries);
    assert_eq!(order.len(), entries.len());
    let mut seen = order.clone();
    seen.sort();
    assert_eq!(seen, vec![0, 1, 2, 3, 4, 5]);
    let lengths: Vec<usize> = order.iter().map(|&i| entries[i].len()).collect();
    assert_eq!(lengths, vec![0, 1, 2, 3, 5, 6]);
    assert_eq!(order, vec![3, 1, 4, 2, 0, 5]);
}

#[test]
fn by_length_of_nothing_and_of_one() {
    assert_eq!(by_length(&Vec::new()), Vec::<usize>::new());
    assert_eq!(by_length(&byte_lines(&["one"])), vec![0]);
}

#[test]
fn by_length_keeps_equal_lengths_in_their_order() {
    let entries = byte_lines(&["bb", "aa", "c", "dd", "e"]);
    assert_eq!(by_length(&entries), vec![2, 4, 0, 1, 3]);
}

#[test]
fn prefixes_only_drops_what_extends_another() {
    assert_eq!(prefixes_only(&strings(&["cat", "car", "cart"])), strings(&["cat", "car"]));
    assert_eq!(prefixes_only(&strings(&["cart", "car", "cat"])), strings(&["car", "cat"]));
    assert_eq!(prefixes_only(&strings(&["a", "ab", "abc"])), strings(&["a"]));
    assert_eq!(prefixes_only(&strings(&["abc", "ab", "a"])), strings(&["a"]));
    assert_eq!(prefixes_only(&strings(&[])), strings(&[]));
}

#[test]
fn prefixes_only_keeps_equal_entries() {
    assert_eq!(prefixes_only(&strings(&["a", "a"])), strings(&["a", "a"]));
    assert_eq!(prefixes_only(&strings(&["ab", "a", "a"])), strings(&["a", "a"]));
}

#[test]
fn prefixes_only_counts_the_empty_text_as_a_prefix() {
    assert_eq!(prefixes_only(&strings(&["a", "", "b"])), strings(&[""]));
    assert_eq!(prefixes_only(&strings(&[""])), strings(&[""]));
}

#[test]
fn prefixes_only_does_not_cut() {
    let many: Vec<String> = (0..1500).map(|n| format!("w{:04}", n)).collect();
    assert_eq!(prefixes_only(&many), many);
}

#[test]
fn result_set_cuts_at_the_limit() {
    let many: Vec<String> = (0..1500).map(|n| format!("w{:04}", n)).collect();
    assert_eq!(result_set(&many), many[..LIMIT].to_vec());
    let exactly: Vec<String> = (0..1000).map(|n| format!("w{:04}", n)).collect();
    assert_eq!(result_set(&exactly), exactly);
    let one_more: Vec<String> = (0..1001).map(|n| format!("w{:04}", n)).collect();
    assert_eq!(result_set(&one_more), one_more[..1000].to_vec());
}

#[test]
fn result_set_filters_before_it_cuts() {
    let mut raw: Vec<String> = Vec::new();
    let mut expected: Vec<String> = Vec::new();
    for n in 0..1100 {
        raw.push(format!("w{:04}x", n));
        raw.push(format!("w{:04}", n));
        if n < 1000 {
            expected.push(format!("w{:04}", n));
        }
    }
    assert_eq!(result_set(&raw), expected);
}

#[test]
fn result_set_below_the_limit_is_the_filter() {
    assert_eq!(result_set(&strings(&["cat", "car", "cart"])), strings(&["cat", "car"]));
    assert_eq!(result_set(&strings(&[])), strings(&[]));
}

#[test]
fn decode_entries_gives_the_texts() {
    let entries = vec![b"cat".to_vec(), "tr\u{e8}s".as_bytes().to_vec(), Vec::new()];
    assert_eq!(decode_entries(&entries), Ok(strings(&["cat", "tr\u{e8}s", ""])));
    assert_eq!(decode_entries(&Vec::new()), Ok(Vec::new()));
}

#[test]
fn decode_entries_fails_on_bytes_that_are_not_text() {
    let entries = vec![b"cat".to_vec(), vec![0xC3], b"dog".to_vec()];
    assert_eq!(decode_entries(&entries), Err(CompletionError::EncodingInvariantViolation));
    let overlong = vec![vec![0xC0, 0x80]];
    assert_eq!(decode_entries(&overlong), Err(CompletionError::EncodingInvariantViolation));
}
