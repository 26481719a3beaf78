use days_executor::device_event_record::{
    decode_event_record, encode_event_record, stored_event_words, stream_event_class,
    StoredEventClass, CHANNEL_EVENT_WORDS, EVENT_WORDS, GENERATOR_EVENT_WORDS,
    REMOTE_STAGING_EVENT_WORDS, SERVICE_EVENT_WORDS,
};

const PACKET_ARRIVAL: u64 = 0;
const TX_READY: u64 = 1;
const TX_COMPLETE: u64 = 2;
const REMOTE_ARRIVAL: u64 = 3;
const RETRANSMISSION_TIMEOUT: u64 = 4;
const PACING_TIMER: u64 = 5;

fn record(kind: u64, phase: u64) -> [u64; EVENT_WORDS] {
    [
        101, phase, 202, 303, 404, kind, 505, 505, 606, 707, 2, 808, 909, 1,
    ]
}

fn assert_logical_event_eq(left: &[u64; EVENT_WORDS], right: &[u64; EVENT_WORDS]) {
    assert_eq!(&left[..7], &right[..7]);
}

#[test]
fn packet_arrival_round_trips_in_generator_record() {
    let expected = record(PACKET_ARRIVAL, 0);
    let encoded = encode_event_record(expected, StoredEventClass::Generator);
    assert_eq!(encoded.len, GENERATOR_EVENT_WORDS);
    let decoded = decode_event_record(
        &encoded.words[..encoded.len],
        StoredEventClass::Generator,
        expected[4],
        Some(expected[8]),
        None,
    );
    assert_eq!(decoded, expected);
}

#[test]
fn tx_ready_round_trips_logical_event_without_packet_copy() {
    let expected = record(TX_READY, 2);
    let encoded = encode_event_record(expected, StoredEventClass::Service);
    assert_eq!(encoded.len, SERVICE_EVENT_WORDS);
    let decoded = decode_event_record(
        &encoded.words[..encoded.len],
        StoredEventClass::Service,
        expected[4],
        None,
        None,
    );
    assert_logical_event_eq(&decoded, &expected);
    assert_eq!(&decoded[7..], &[0; EVENT_WORDS - 7]);
}

#[test]
fn tx_complete_round_trips_with_in_service_hydration() {
    let expected = record(TX_COMPLETE, 1);
    let mut service = [0; EVENT_WORDS];
    service[7..].copy_from_slice(&expected[7..]);
    let encoded = encode_event_record(expected, StoredEventClass::Service);
    assert_eq!(encoded.len, SERVICE_EVENT_WORDS);
    let decoded = decode_event_record(
        &encoded.words[..encoded.len],
        StoredEventClass::Service,
        expected[4],
        None,
        Some(&service),
    );
    assert_eq!(decoded, expected);
}

#[test]
fn remote_arrival_round_trips_in_channel_record() {
    let expected = record(REMOTE_ARRIVAL, 0);
    let encoded = encode_event_record(expected, StoredEventClass::Channel);
    assert_eq!(encoded.len, CHANNEL_EVENT_WORDS);
    let decoded = decode_event_record(
        &encoded.words[..encoded.len],
        StoredEventClass::Channel,
        expected[4],
        None,
        None,
    );
    assert_eq!(decoded, expected);
}

#[test]
fn fallback_timer_kinds_remain_exact_full_records() {
    for (kind, phase) in [(RETRANSMISSION_TIMEOUT, 1), (PACING_TIMER, 1)] {
        let expected = record(kind, phase);
        let encoded = encode_event_record(expected, StoredEventClass::Fallback);
        assert_eq!(encoded.len, EVENT_WORDS);
        let decoded = decode_event_record(
            &encoded.words[..encoded.len],
            StoredEventClass::Fallback,
            expected[4],
            None,
            None,
        );
        assert_eq!(decoded, expected);
    }
}

#[test]
fn stream_ranges_select_their_physical_record_widths() {
    assert_eq!(
        stored_event_words(stream_event_class(1, 2, 5)),
        CHANNEL_EVENT_WORDS
    );
    assert_eq!(
        stored_event_words(stream_event_class(2, 2, 5)),
        SERVICE_EVENT_WORDS
    );
    assert_eq!(
        stored_event_words(stream_event_class(5, 2, 5)),
        GENERATOR_EVENT_WORDS
    );
    assert_eq!(REMOTE_STAGING_EVENT_WORDS, CHANNEL_EVENT_WORDS + 1);
}
