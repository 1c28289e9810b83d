use spans::ByteLen;
use spans::IdentityKey;
use spans::KeysEqual;
use spans::Spans;
use spans::Successor;

#[test]
fn coverage_concatenation_restores_source() {
    let vec = vec!["abc", "run", "tag", "go", "be", "ring", "zip", "zap", "put"];
    let source = vec.clone();
    let mut spans = vec.spans_by_key(ByteLen, KeysEqual);
    let got = spans.collect_spans();
    let mut rebuilt: Vec<&str> = Vec::new();
    for span in got {
        for item in span {
            rebuilt.push(item);
        }
    }
    assert_eq!(rebuilt, source);
}

#[test]
fn every_span_is_nonempty() {
    let vec: Vec<i64> = vec![7, 8, 1, 1, 1, 4, 5, 6, 9];
    let mut spans = vec.spans_by_key(IdentityKey, Successor);
    let got = spans.collect_spans();
    assert!(!got.is_empty());
    for span in &got {
        assert!(!span.is_empty());
    }
}

#[test]
fn neighbours_inside_a_span_are_adjacent() {
    let vec: Vec<i64> = vec![3, 4, 5, 9, 10, 2];
    let mut spans = vec.spans_by_key(IdentityKey, Successor);
    let got = spans.collect_spans();
    for span in &got {
        for pair in span.windows(2) {
            assert_eq!(pair[0] + 1, pair[1]);
        }
    }
    assert_eq!(got, vec![vec![3, 4, 5], vec![9, 10], vec![2]]);
}

#[test]
fn span_boundaries_fail_adjacency() {
    let vec = vec!["one", "two", "nine", "four", "five", "a"];
    let mut spans = vec.spans_by_key(ByteLen, KeysEqual);
    let got = spans.collect_spans();
    for pair in got.windows(2) {
        let last = pair[0].last().unwrap();
        let first_next = pair[1].first().unwrap();
        assert_ne!(last.len(), first_next.len());
    }
    assert_eq!(
        got,
        vec![vec!["one", "two"], vec!["nine", "four", "five"], vec!["a"]]
    );
}

#[test]
fn exhausted_sequencer_stays_exhausted() {
    let vec: Vec<i64> = vec![1, 2];
    let mut spans = vec.spans_by_key(IdentityKey, Successor);
    let got = spans.collect_spans();
    assert_eq!(got, vec![vec![1, 2]]);
    assert!(spans.next().is_none());
    assert!(spans.next().is_none());
    assert!(spans.collect_spans().is_empty());
}

#[test]
fn exhausted_span_stays_exhausted() {
    let vec: Vec<i64> = vec![1, 2, 7, 8];
    let mut spans = vec.spans_by_key(IdentityKey, Successor);
    let mut first = spans.next().unwrap();
    assert_eq!(first.next(&mut spans), Some(1));
    assert_eq!(first.next(&mut spans), Some(2));
    assert_eq!(first.next(&mut spans), None);
    // Pulling again neither yields anything nor consumes the next span's items.
    assert_eq!(first.next(&mut spans), None);
    assert_eq!(first.next(&mut spans), None);
    let mut second = spans.next().unwrap();
    assert_eq!(second.next(&mut spans), Some(7));
    assert_eq!(second.next(&mut spans), Some(8));
    assert_eq!(second.next(&mut spans), None);
    assert!(spans.next().is_none());
}

#[test]
fn abandoned_span_leaves_cursor_in_place() {
    let vec: Vec<i64> = vec![1, 2, 3, 9];
    let mut spans = vec.spans_by_key(IdentityKey, Successor);
    let mut first = spans.next().unwrap();
    assert_eq!(first.next(&mut spans), Some(1));
    // Abandon the span after one item: the next span picks up from there.
    let got = spans.collect_spans();
    assert_eq!(got, vec![vec![2, 3], vec![9]]);
}

#[test]
fn empty_strings_group_together() {
    let vec = vec!["", "", "x"];
    let mut spans = vec.spans_by_key(ByteLen, KeysEqual);
    let got = spans.collect_spans();
    assert_eq!(got, vec![vec!["", ""], vec!["x"]]);
}

#[test]
fn successor_handles_extreme_values() {
    let vec: Vec<i64> = vec![i64::MAX - 1, i64::MAX, i64::MIN, i64::MIN + 1];
    let mut spans = vec.spans_by_key(IdentityKey, Successor);
    let got = spans.collect_spans();
    assert_eq!(
        got,
        vec![vec![i64::MAX - 1, i64::MAX], vec![i64::MIN, i64::MIN + 1]]
    );
}
