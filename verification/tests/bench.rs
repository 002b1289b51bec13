use agni::bench::ops_per_task;

#[test]
fn ops_are_shared_out_evenly() {
    assert_eq!(ops_per_task(10000, 50), 200);
    assert_eq!(ops_per_task(10, 3), 3);
    assert_eq!(ops_per_task(2, 5), 0);
    assert_eq!(ops_per_task(0, 1), 0);
    assert_eq!(ops_per_task(usize::MAX, 1), usize::MAX);
}
