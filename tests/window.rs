use noir_core::window::{window_index, WindowedStream};

#[test]
fn window_sum() {
    let records: Vec<(u64, (i64, i64))> = vec![(0, (10, 0)), (0, (20, 1)), (0, (30, 2)), (0, (40, 10)), (0, (50, 11))];
    let res = WindowedStream::new(vec![records], 10).sum();
    assert_eq!(res.replicas.len(), 1);
    assert_eq!(res.replicas[0], vec![(0, 60), (0, 90)]);
}

#[test]
fn window_sum_separates_keys() {
    let records: Vec<(u64, (i64, i64))> = vec![(1, (5, 0)), (2, (7, 3)), (1, (6, 4)), (2, (1, 12)), (1, (-2, 15))];
    let res = WindowedStream::new(vec![records, Vec::new()], 10).sum();
    assert_eq!(res.replicas[0], vec![(1, 11), (2, 7), (2, 1), (1, -2)]);
    assert!(res.replicas[1].is_empty());
}

#[test]
fn window_sum_does_not_overflow() {
    let records: Vec<(u64, (i64, i64))> = vec![(0, (i64::MAX, 0)), (0, (i64::MAX, 1)), (0, (i64::MIN, 2))];
    let res = WindowedStream::new(vec![records], 10).sum();
    assert_eq!(res.replicas[0], vec![(0, 2 * (i64::MAX as i128) + i64::MIN as i128)]);
}

#[test]
fn window_index_rounds_down() {
    assert_eq!(window_index(0, 10), 0);
    assert_eq!(window_index(9, 10), 0);
    assert_eq!(window_index(10, 10), 1);
    assert_eq!(window_index(-1, 10), -1);
    assert_eq!(window_index(-10, 10), -1);
    assert_eq!(window_index(-11, 10), -2);
}
