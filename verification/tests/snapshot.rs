use raft::types::SnapshotData;

#[test]
fn snapshot_data_round_trips_bytes() {
    let data = SnapshotData::new(vec![1, 2, 3]);
    assert_eq!(data.as_bytes(), &[1, 2, 3]);
    assert_eq!(data.into_bytes(), vec![1, 2, 3]);
}

#[test]
fn snapshot_data_debug_hides_raw_bytes() {
    let data = SnapshotData::new(vec![0; 42]);
    assert_eq!(data.debug(), "SnapshotData(<42 bytes>)");
}
