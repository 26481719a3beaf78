use days_executor::cuda::{packet_record, CudaError};
use days_executor::cuda_plan::packet_for;
use days_executor::run_summary::RunSummary;
use days_executor::cuda_readback::{
    decode_summary_rows,
    arena_compaction_plan, compaction_error, read_packet, read_queue, read_record,
};
use days_executor::device_compaction::CompactionError;
use days_executor::device_compaction::CompactionShape;
use days_executor::event::{FlowId, PayloadId};
use days_executor::image::{PacketDescriptor, PacketKind, TcpAckHeader};

fn packet(id: u64, size_bytes: u64, kind: PacketKind) -> PacketDescriptor {
    PacketDescriptor {
        id: PayloadId(id),
        flow: FlowId(3),
        size_bytes,
        ecn_marked: id % 2 == 0,
        kind,
    }
}

#[test]
fn record_offsets_become_word_offsets_of_the_plan() {
    let source: Vec<u64> = (0..4 * 14).collect();
    let plan = arena_compaction_plan(
        "FEL record",
        CompactionShape::Linear,
        14,
        source.len(),
        &[(0, 0, 0, 2), (3, 0, 0, 1)],
    )
    .expect("both regions fit the plane");
    assert_eq!(plan.total_records(), 3);
    assert_eq!(plan.destination(0), 0);
    assert_eq!(plan.destination(1), 2);
    let gathered = plan.gather(&source);
    let expected: Vec<u64> = (0..28).chain(42..56).collect();
    assert_eq!(gathered, expected);
}

#[test]
fn an_offset_past_the_word_range_is_refused_with_the_arena_named() {
    let refused = arena_compaction_plan(
        "queue record",
        CompactionShape::Ring,
        14,
        1_024,
        &[(u64::MAX / 2, 4, 0, 1)],
    );
    match refused {
        Err(CudaError::Validation(message)) => {
            assert!(message.starts_with("device readback compaction refused: "));
            assert!(message.contains("queue record"));
        }
        other => panic!("expected a validation refusal, got {other:?}"),
    }
}

#[test]
fn an_overfull_ring_row_is_refused() {
    let refused =
        arena_compaction_plan("stream record", CompactionShape::Ring, 14, 1_024, &[(0, 2, 0, 3)]);
    assert!(matches!(refused, Err(CudaError::Validation(_))));
}

#[test]
fn gathered_queue_records_decode_in_logical_order() {
    let first = packet(10, 1_500, PacketKind::Data);
    let second = packet(11, 64, PacketKind::Feedback);
    let third = packet(
        12,
        40,
        PacketKind::TcpAck(TcpAckHeader {
            acknowledgment: 7,
            acknowledged_bytes: 1_460,
            echoed_sent_time_ns: 9,
        }),
    );
    let mut records = Vec::new();
    for packet in [first, second, third] {
        records.extend_from_slice(&packet_record(packet));
    }
    let plan = arena_compaction_plan(
        "queue record",
        CompactionShape::Linear,
        14,
        records.len(),
        &[(0, 0, 0, 1), (1, 0, 0, 2)],
    )
    .expect("the queue regions fit");
    assert_eq!(read_queue(&plan, 0, &records), vec![first]);
    assert_eq!(read_queue(&plan, 1, &records), vec![second, third]);
    assert_eq!(read_packet(&records, 2), third);
}

#[test]
fn a_record_is_its_fourteen_words() {
    let records: Vec<u64> = (0..3 * 14).collect();
    assert_eq!(read_record(&records, 1), &records[14..28]);
}

#[test]
fn a_refused_plan_is_a_named_validation_failure() {
    let failure = compaction_error(CompactionError("FEL record overflows".to_string()));
    assert_eq!(
        failure,
        CudaError::Validation(
            "device readback compaction refused: FEL record overflows".to_string()
        )
    );
}

#[test]
fn the_last_listed_descriptor_of_a_payload_is_the_initial_one() {
    let first = packet(5, 10, PacketKind::Data);
    let other = packet(6, 20, PacketKind::Data);
    let replaced = packet(5, 30, PacketKind::Feedback);
    let packets = [first, other, replaced];
    assert_eq!(packet_for(&packets, PayloadId(5)), Ok(replaced));
    assert_eq!(packet_for(&packets, PayloadId(6)), Ok(other));
    match packet_for(&packets, PayloadId(7)) {
        Err(CudaError::Validation(message)) => {
            assert!(message.contains("has no initial descriptor"));
        }
        other => panic!("expected a validation refusal, got {other:?}"),
    }
}

#[test]
fn a_live_region_past_the_source_plane_is_refused_with_its_end_word() {
    let refused = arena_compaction_plan(
        "test",
        CompactionShape::Ring,
        2,
        12,
        &[(0, 4, 0, 4), (4, 4, 0, 4)],
    );
    assert_eq!(
        refused,
        Err(CudaError::Validation(
            "device readback compaction refused: test live region ends at word 16, past the 12-word source plane"
                .to_string()
        ))
    );
}

#[test]
fn a_missing_descriptor_is_refused_by_name() {
    assert_eq!(
        packet_for(&[], PayloadId(7)),
        Err(CudaError::Validation("payload PayloadId(7) has no initial descriptor".to_string()))
    );
}

#[test]
fn summary_rows_sum_each_counter_over_the_lps() {
    let mut words = vec![0_u64; 2 * 12 * 2];
    words[0] = 5;
    words[24] = 7;
    words[25] = 1;
    words[22] = u64::MAX;
    words[24 + 22] = 1;
    words[2 * 6] = 3;
    let summary = decode_summary_rows(&words, 2);
    assert_eq!(summary.sourced_packets, 12 + (1_u128 << 64));
    assert_eq!(summary.feedback_bytes, 1_u128 << 64);
    assert_eq!(summary.received_packets, 3);
    assert_eq!(
        RunSummary { sourced_packets: 0, feedback_bytes: 0, received_packets: 0, ..summary },
        RunSummary::default()
    );
    assert_eq!(decode_summary_rows(&[], 0), RunSummary::default());
}
