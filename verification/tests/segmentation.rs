use spans::ByteLen;
use spans::FirstChar;
use spans::IdentityKey;
use spans::KeysEqual;
use spans::Spans;
use spans::Successor;

#[test]
fn test_empty() {
    let vec: Vec<&str> = Vec::new();
    let mut spans = vec.spans_by_key(ByteLen, KeysEqual);
    let got = spans.collect_spans();
    assert_eq!(got, Vec::<Vec<&str>>::new());
}

#[test]
fn test_single_item() {
    let vec = vec!["abc"];
    let mut spans = vec.spans_by_key(ByteLen, KeysEqual);
    let got = spans.collect_spans();
    assert_eq!(got, vec![vec!["abc"]]);
}

#[test]
fn test_two_items_one_span() {
    let vec = vec!["abc", "xyz"];
    let mut spans = vec.spans_by_key(ByteLen, KeysEqual);
    let got = spans.collect_spans();
    assert_eq!(got, vec![vec!["abc", "xyz"]]);
}

#[test]
fn test_two_items_two_spans() {
    let vec = vec!["abc", "xyz"];
    let mut spans = vec.spans_by_key(FirstChar, KeysEqual);
    let got = spans.collect_spans();
    assert_eq!(got, vec![vec!["abc"], vec!["xyz"]]);
}

#[test]
fn test_many_items() {
    let vec = vec![
        "abc", "run", "tag", "go", "be", "ring", "zip", "zap", "put", "", "", "end",
    ];
    let mut spans = vec.spans_by_key(ByteLen, KeysEqual);
    let mut got: Vec<Vec<&str>> = Vec::new();
    while let Some(mut span) = spans.next() {
        let mut items: Vec<&str> = Vec::new();
        while let Some(item) = span.next(&mut spans) {
            items.push(item);
        }
        got.push(items);
    }
    assert_eq!(
        got,
        vec![
            vec!["abc", "run", "tag"],
            vec!["go", "be"],
            vec!["ring"],
            vec!["zip", "zap", "put"],
            vec!["", ""],
            vec!["end"]
        ]
    );
}

#[test]
fn test_many_items_numbers() {
    let vec: Vec<i64> = vec![
        0, 1, 2, 3, 4, 10, 11, 12, 20, 30, 40, 50, 51, 60, 61, 62, 63, 64, 65, 70,
    ];
    let mut spans = vec.spans_by_key(IdentityKey, Successor);
    let mut got: Vec<Vec<i64>> = Vec::new();
    while let Some(mut span) = spans.next() {
        let mut items: Vec<i64> = Vec::new();
        while let Some(item) = span.next(&mut spans) {
            items.push(item);
        }
        got.push(items);
    }
    assert_eq!(
        got,
        vec![
            vec![0, 1, 2, 3, 4],
            vec![10, 11, 12],
            vec![20],
            vec![30],
            vec![40],
            vec![50, 51],
            vec![60, 61, 62, 63, 64, 65],
            vec![70]
        ]
    );
}

#[test]
fn test_consecutive_numbers() {
    let vec: Vec<i64> = vec![1, 2, 5, 6, 7, 11, 13, 14, 15];
    let mut spans = vec.spans_by_key(IdentityKey, Successor);
    let got = spans.collect_spans();
    assert_eq!(
        got,
        vec![vec![1, 2], vec![5, 6, 7], vec![11], vec![13, 14, 15]]
    );
}
