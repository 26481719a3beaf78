use days_executor::event::{NodeId, PayloadId};

#[test]
fn node_sequences_interleave_into_distinct_identities() {
    let mut seen = Vec::new();
    for node in 0..3 {
        for sequence in 0..4 {
            let id = PayloadId::from_node_sequence(NodeId(node), 3, sequence).unwrap();
            assert_eq!(id, PayloadId(sequence * 3 + node));
            assert!(!seen.contains(&id));
            seen.push(id);
        }
    }
}

#[test]
fn the_last_local_sequence_and_overflowing_identities_are_refused() {
    assert_eq!(PayloadId::from_node_sequence(NodeId(0), 1, u64::MAX), None);
    assert_eq!(PayloadId::from_node_sequence(NodeId(1), 2, 1 << 63), None);
    assert_eq!(
        PayloadId::from_node_sequence(NodeId(1), 2, u64::MAX / 2),
        Some(PayloadId(u64::MAX))
    );
}
