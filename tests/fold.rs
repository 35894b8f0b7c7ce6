use noir_core::element::StreamElement;
use noir_core::fold::Fold;
use noir_core::stream::{Stream, TimedStream};

fn add(a: u64, x: u64) -> u64 {
    a + x
}

#[test]
fn fold_stream() {
    let source: Vec<u8> = (0..10u8).collect();
    let res = Stream::new(vec![source]).fold("".to_string(), |s, n| s + &n.to_string(), |s1, s2| s1 + &s2);
    let res = &res.replicas[0];
    assert_eq!(res.len(), 1);
    assert_eq!(res[0], "0123456789");
}

#[test]
fn fold_digits_over_contiguous_replicas() {
    let reps: Vec<Vec<u8>> = vec![vec![0, 1, 2], vec![], vec![3, 4, 5, 6], vec![7, 8, 9]];
    let res = Stream::new(reps).fold("".to_string(), |s, n| s + &n.to_string(), |s1, s2| s1 + &s2);
    assert_eq!(res.replicas.len(), 1);
    assert_eq!(res.replicas[0], vec!["0123456789".to_string()]);
}

#[test]
fn fold_sum_independent_of_parallelism() {
    let one = Stream::new(vec![vec![1u64, 2, 3, 4, 5, 6]]).fold(0, add, add);
    let three = Stream::new(vec![vec![1u64, 2], vec![3, 4], vec![5, 6]]).fold(0, add, add);
    assert_eq!(one.replicas[0], vec![21]);
    assert_eq!(three.replicas[0], vec![21]);
}

#[test]
fn fold_of_empty_stream_yields_nothing() {
    let res = Stream::new(vec![Vec::<u64>::new(), Vec::new()]).fold(0, add, add);
    assert_eq!(res.replicas.len(), 1);
    assert!(res.replicas[0].is_empty());
}

#[test]
fn fold_operator_emits_timestamp_and_watermark() {
    let mut op = Fold::new(0u64, add);
    assert!(op.next(StreamElement::Timestamped(5u64, 3)).is_empty());
    assert!(op.next(StreamElement::Watermark(2)).is_empty());
    assert!(op.next(StreamElement::Timestamped(7u64, 9)).is_empty());
    assert!(op.next(StreamElement::Item(1u64)).is_empty());
    assert!(op.next(StreamElement::FlushBatch).is_empty());
    let out = op.next(StreamElement::Terminate);
    assert_eq!(out.len(), 3);
    assert!(matches!(out[0], StreamElement::Timestamped(13, 9)));
    assert!(matches!(out[1], StreamElement::Watermark(2)));
    assert!(matches!(out[2], StreamElement::Terminate));
}

#[test]
fn fold_restart_twice_emits_state_once() {
    let mut op = Fold::new(0u64, add);
    op.next(StreamElement::Item(4u64));
    let first = op.next(StreamElement::<u64>::FlushAndRestart);
    assert_eq!(first.len(), 2);
    assert!(matches!(first[0], StreamElement::Item(4)));
    assert!(matches!(first[1], StreamElement::FlushAndRestart));
    let second = op.next(StreamElement::<u64>::FlushAndRestart);
    assert_eq!(second.len(), 1);
    assert!(matches!(second[0], StreamElement::FlushAndRestart));
}

#[test]
fn fold_to_string_appends_name() {
    let op = Fold::new(0u64, add);
    assert_eq!(op.to_string("Source", "u64", "u64"), "Source -> Fold<u64 -> u64>");
    assert_eq!(op.to_string("A -> B", "u8", "alloc::string::String"), "A -> B -> Fold<u8 -> alloc::string::String>");
}

#[test]
fn terminated_fold_only_repeats_terminate() {
    let mut op = Fold::new(0u64, add);
    op.next(StreamElement::Item(2u64));
    assert_eq!(op.next(StreamElement::<u64>::Terminate).len(), 2);
    let after = op.next(StreamElement::Item(5u64));
    assert_eq!(after.len(), 1);
    assert!(matches!(after[0], StreamElement::Terminate));
    let again = op.next(StreamElement::<u64>::FlushAndRestart);
    assert_eq!(again.len(), 1);
    assert!(matches!(again[0], StreamElement::Terminate));
}

#[test]
fn fold_duplicate_keeps_state() {
    let mut op = Fold::new(0u64, add);
    op.next(StreamElement::Item(7u64));
    let mut copy = op.duplicate();
    let out = copy.next(StreamElement::<u64>::Terminate);
    assert!(matches!(out[0], StreamElement::Item(7)));
    let out = op.next(StreamElement::<u64>::Terminate);
    assert!(matches!(out[0], StreamElement::Item(7)));
}

#[test]
fn timed_fold_carries_largest_timestamp() {
    let reps: Vec<Vec<(u64, i64)>> = vec![vec![(1, 5), (2, 3)], vec![], vec![(3, 9), (4, -1)]];
    let res = TimedStream::new(reps).fold(0, add, add);
    assert_eq!(res.replicas.len(), 1);
    assert_eq!(res.replicas[0], vec![(10, 9)]);
    let empty = TimedStream::new(vec![Vec::<(u64, i64)>::new()]).fold(0, add, add);
    assert!(empty.replicas[0].is_empty());
}
