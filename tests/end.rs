use noir_core::batcher::{BatchMode, Batcher};
use noir_core::element::StreamElement;
use noir_core::end::{Coord, End, NextStrategy, ReceiverEndpoint};

fn endpoint(block_id: u64, replica_id: u64, prev_block_id: u64) -> ReceiverEndpoint {
    ReceiverEndpoint { coord: Coord { block_id, host_id: 0, replica_id }, prev_block_id }
}

fn me() -> Coord {
    Coord { block_id: 1, host_id: 0, replica_id: 0 }
}

fn count_terminates(end_deliveries: &[noir_core::end::Delivery<u64>], to: ReceiverEndpoint) -> usize {
    end_deliveries
        .iter()
        .filter(|d| d.endpoint == to)
        .flat_map(|d| d.batch.iter())
        .filter(|e| matches!(e, StreamElement::Terminate))
        .count()
}

#[test]
fn setup_drops_ignored_sorts_and_groups() {
    let mut end: End<u64> = End::new(NextStrategy::GroupBy, BatchMode::single());
    end.ignore_destination(9);
    let offered = vec![endpoint(7, 0, 1), endpoint(5, 2, 1), endpoint(9, 0, 1), endpoint(5, 0, 1), endpoint(5, 1, 1)];
    end.setup(me(), offered, 0);
    assert_eq!(
        end.destinations(),
        vec![endpoint(5, 0, 1), endpoint(5, 1, 1), endpoint(5, 2, 1), endpoint(7, 0, 1)]
    );
    let conns = end.structure();
    assert_eq!(conns.len(), 2);
    assert_eq!(conns[0].to_block_id, 5);
    assert_eq!(conns[1].to_block_id, 7);
    assert_eq!(conns[0].strategy, NextStrategy::GroupBy);
}

#[test]
fn all_strategy_makes_one_group_per_sender() {
    let mut end: End<u64> = End::new(NextStrategy::All, BatchMode::single());
    end.setup(me(), vec![endpoint(5, 1, 1), endpoint(5, 0, 1)], 0);
    let conns = end.structure();
    assert_eq!(conns.len(), 2);
    let (_, out) = end.next(StreamElement::Item(3), 0, 0);
    assert_eq!(out.len(), 2);
}

#[test]
fn record_goes_to_one_replica_per_downstream_block() {
    let mut end: End<u64> = End::new(NextStrategy::GroupBy, BatchMode::single());
    end.setup(me(), vec![endpoint(5, 0, 1), endpoint(5, 1, 1), endpoint(5, 2, 1), endpoint(7, 0, 1)], 0);
    let (back, out) = end.next(StreamElement::Item(42), 4, 0);
    assert!(matches!(back, StreamElement::Item(())));
    assert_eq!(out.len(), 2);
    assert_eq!(out[0].endpoint, endpoint(5, 1, 1));
    assert_eq!(out[1].endpoint, endpoint(7, 0, 1));
    assert!(matches!(out[0].batch[0], StreamElement::Item(42)));
}

#[test]
fn same_index_same_replica() {
    let mut end: End<u64> = End::new(NextStrategy::GroupBy, BatchMode::single());
    end.setup(me(), vec![endpoint(5, 0, 1), endpoint(5, 1, 1), endpoint(5, 2, 1)], 0);
    let (_, a) = end.next(StreamElement::Item(1), 17, 0);
    let (_, b) = end.next(StreamElement::Timestamped(2, 5), 17, 0);
    assert_eq!(a[0].endpoint, b[0].endpoint);
    assert_eq!(a[0].endpoint, endpoint(5, 2, 1));
}

#[test]
fn watermark_and_restart_are_broadcast_and_flushed() {
    let mut end: End<u64> = End::new(NextStrategy::GroupBy, BatchMode::fixed(10));
    end.setup(me(), vec![endpoint(5, 0, 1), endpoint(5, 1, 1)], 0);
    let (_, out) = end.next(StreamElement::Item(1), 0, 0);
    assert!(out.is_empty());
    let (_, out) = end.next(StreamElement::Watermark(3), 0, 0);
    assert!(out.is_empty());
    let (back, out) = end.next(StreamElement::FlushAndRestart, 0, 0);
    assert!(matches!(back, StreamElement::FlushAndRestart));
    assert_eq!(out.len(), 2);
    assert_eq!(out[0].batch.len(), 3);
    assert!(matches!(out[0].batch[0], StreamElement::Item(1)));
    assert!(matches!(out[0].batch[1], StreamElement::Watermark(3)));
    assert!(matches!(out[0].batch[2], StreamElement::FlushAndRestart));
    assert_eq!(out[1].batch.len(), 2);
}

#[test]
fn flush_batch_is_not_forwarded_but_flushes() {
    let mut end: End<u64> = End::new(NextStrategy::OnlyOne, BatchMode::fixed(10));
    end.setup(me(), vec![endpoint(5, 0, 1)], 0);
    end.next(StreamElement::Item(8), 0, 0);
    let (back, out) = end.next(StreamElement::FlushBatch, 0, 0);
    assert!(matches!(back, StreamElement::FlushBatch));
    assert_eq!(out.len(), 1);
    assert_eq!(out[0].batch.len(), 1);
    assert!(matches!(out[0].batch[0], StreamElement::Item(8)));
}

#[test]
fn broadcast_control_terminates() {
    let downstream = [endpoint(5, 0, 1), endpoint(5, 1, 1)];
    let mut all = Vec::new();
    for replica in 0..4u64 {
        let mut end: End<u64> = End::new(NextStrategy::All, BatchMode::fixed(4));
        end.setup(Coord { block_id: 1, host_id: 0, replica_id: replica }, downstream.to_vec(), 0);
        end.next(StreamElement::Item(replica), 0, 0);
        let (_, out) = end.next(StreamElement::Terminate, 0, 0);
        assert!(end.destinations().is_empty());
        all.extend(out);
    }
    assert_eq!(count_terminates(&all, downstream[0]), 4);
    assert_eq!(count_terminates(&all, downstream[1]), 4);
    assert_eq!(count_terminates(&all, downstream[0]) + count_terminates(&all, downstream[1]), 8);
}

#[test]
fn feedback_loop_end_skips_terminate_to_loop_head() {
    let a = endpoint(2, 0, 3);
    let sink = endpoint(4, 0, 3);
    let mut end: End<u64> = End::new(NextStrategy::OnlyOne, BatchMode::single());
    end.mark_feedback(2);
    end.setup(Coord { block_id: 3, host_id: 0, replica_id: 0 }, vec![sink, a], 0);
    let (back, out) = end.next(StreamElement::Terminate, 0, 0);
    assert!(matches!(back, StreamElement::Terminate));
    assert_eq!(count_terminates(&out, a), 0);
    assert_eq!(count_terminates(&out, sink), 1);
}

#[test]
fn end_describes_strategy() {
    let shuffle: End<u64> = End::new(NextStrategy::Random, BatchMode::single());
    assert_eq!(shuffle.to_string("Source"), "Source -> Shuffle");
    let only: End<u64> = End::new(NextStrategy::OnlyOne, BatchMode::single());
    assert_eq!(only.to_string("Source"), "Source -> OnlyOne");
    let grouped: End<u64> = End::new(NextStrategy::GroupBy, BatchMode::single());
    assert_eq!(grouped.to_string("Source"), "Source");
}

#[test]
fn batcher_sends_when_full() {
    let mut b: Batcher<u64> = Batcher::new(BatchMode::fixed(3), 0);
    assert!(b.enqueue(StreamElement::Item(1), 0).is_none());
    assert!(b.enqueue(StreamElement::Item(2), 0).is_none());
    let batch = b.enqueue(StreamElement::Item(3), 0).unwrap();
    assert_eq!(batch.len(), 3);
    assert!(b.flush(0).is_none());
}

#[test]
fn batcher_sends_after_deadline() {
    let mut b: Batcher<u64> = Batcher::new(BatchMode::adaptive(100, 5), 10);
    assert!(b.enqueue(StreamElement::Item(1), 12).is_none());
    let batch = b.enqueue(StreamElement::Item(2), 16).unwrap();
    assert_eq!(batch.len(), 2);
    assert!(b.enqueue(StreamElement::Item(3), 20).is_none());
    let rest = b.end().unwrap();
    assert_eq!(rest.len(), 1);
}

#[test]
fn single_mode_sends_every_element() {
    let mut b: Batcher<u64> = Batcher::new(BatchMode::single(), 0);
    assert_eq!(b.enqueue(StreamElement::Watermark(4), 0).unwrap().len(), 1);
    assert!(b.end().is_none());
}

#[test]
fn end_duplicate_has_no_senders() {
    let mut end: End<u64> = End::new(NextStrategy::Random, BatchMode::single());
    end.ignore_destination(9);
    end.mark_feedback(2);
    end.setup(me(), vec![endpoint(5, 0, 1)], 0);
    let copy = end.duplicate();
    assert!(copy.destinations().is_empty());
    assert!(copy.structure().is_empty());
    assert_eq!(copy.to_string("S"), "S -> Shuffle");
    assert_eq!(end.destinations().len(), 1);
}
