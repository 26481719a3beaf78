use days_executor::aqm_trace::{
    aqm_transitions_csv, AqmTraceError, AqmTransitionAction, AqmTransitionRecord, HEADER,
};
use days_executor::event::{EventKey, NodeId, PayloadId};
use days_executor::model::{DropMarkPolicy, EcnThresholdPolicy, QueueDepthUnit, RedPolicyState};

fn key(time_ns: u64, origin_seq: u64) -> EventKey {
    EventKey { time_ns, phase: 2, origin_node: NodeId(1), origin_seq }
}

fn threshold_record(time_ns: u64) -> AqmTransitionRecord {
    let policy = DropMarkPolicy::EcnThreshold(EcnThresholdPolicy {
        unit: QueueDepthUnit::Packets,
        capacity: 64,
        threshold: 8,
    });
    AqmTransitionRecord {
        key: key(time_ns, 5),
        node: NodeId(3),
        payload: PayloadId(12),
        queued_packets_before: 9,
        queued_bytes_before: 13500,
        packet_size_bytes: 1500,
        ecn_before: false,
        ecn_after: true,
        before: policy,
        after: policy,
        action: AqmTransitionAction::Mark,
    }
}

fn red_record(time_ns: u64) -> AqmTransitionRecord {
    let before = RedPolicyState {
        unit: QueueDepthUnit::Bytes,
        capacity: 100_000,
        min_threshold: 10,
        max_threshold: 30,
        max_probability_numerator: 1,
        max_probability_denominator: 10,
        mark_ecn: true,
        average_scaled: 400,
        counter: 2,
    };
    AqmTransitionRecord {
        key: key(time_ns, 6),
        node: NodeId(3),
        payload: PayloadId(13),
        queued_packets_before: 0,
        queued_bytes_before: 0,
        packet_size_bytes: 64,
        ecn_before: false,
        ecn_after: false,
        before: DropMarkPolicy::Red(before),
        after: DropMarkPolicy::Red(RedPolicyState { average_scaled: 375, counter: 3, ..before }),
        action: AqmTransitionAction::Enqueue,
    }
}

#[test]
fn csv_rows_follow_canonical_key_order() {
    let csv = aqm_transitions_csv(&[red_record(20), threshold_record(10)]).expect("keys are unique");
    let expected = format!(
        "{HEADER}10,2,1,5,3,12,9,13500,1500,0,1,threshold,packets,64,8,,,,,0,,,,,mark\n\
         20,2,1,6,3,13,0,0,64,0,0,red,bytes,100000,,10,30,1,10,1,400,2,375,3,enqueue\n"
    );
    assert_eq!(csv, expected);
}

#[test]
fn empty_trace_is_only_the_header() {
    assert_eq!(aqm_transitions_csv(&[]), Ok(HEADER.to_string()));
}

#[test]
fn duplicate_keys_are_refused() {
    let record = threshold_record(10);
    assert_eq!(
        aqm_transitions_csv(&[record, red_record(30), record]),
        Err(AqmTraceError { duplicate_key: key(10, 5) })
    );
}

#[test]
fn csv_does_not_depend_on_record_order() {
    let records = [red_record(20), threshold_record(10), red_record(15)];
    let forward = aqm_transitions_csv(&records);
    let reversed = aqm_transitions_csv(&[records[2], records[1], records[0]]);
    let rotated = aqm_transitions_csv(&[records[1], records[2], records[0]]);
    assert!(forward.is_ok());
    assert_eq!(forward, reversed);
    assert_eq!(forward, rotated);

    let duplicate = threshold_record(10);
    let refused = aqm_transitions_csv(&[duplicate, red_record(5), duplicate]);
    let refused_reordered = aqm_transitions_csv(&[red_record(5), duplicate, duplicate]);
    assert_eq!(refused, Err(AqmTraceError { duplicate_key: key(10, 5) }));
    assert_eq!(refused, refused_reordered);
}

#[test]
fn a_repeated_key_reads_as_a_diagnostic() {
    assert_eq!(
        AqmTraceError { duplicate_key: key(10, 5) }.message(),
        "duplicate canonical AQM transition key EventKey { time_ns: 10, phase: 2, origin_node: NodeId(1), origin_seq: 5 }"
    );
}
