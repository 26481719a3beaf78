use days_executor::event::{Event, EventKey, EventKind, FlowId, NodeId, PayloadId};
use days_executor::image::{PacketDescriptor, PacketKind};
use days_executor::remote_order::{
    remote_envelope_varying_bytes, radix_sort_remote_envelopes, RemoteEnvelope,
};

fn envelope(
    target: u64,
    time_ns: u64,
    phase: u16,
    origin_node: u64,
    origin_seq: u64,
    payload: u64,
) -> RemoteEnvelope {
    RemoteEnvelope {
        event: Event {
            key: EventKey {
                time_ns,
                phase,
                origin_node: NodeId(origin_node),
                origin_seq,
            },
            target: NodeId(target),
            kind: EventKind::RemoteArrival,
            payload: PayloadId(payload),
        },
        packet: PacketDescriptor {
            id: PayloadId(payload),
            flow: FlowId(0),
            size_bytes: 1_000,
            ecn_marked: false,
            kind: PacketKind::Data,
        },
    }
}

#[test]
fn only_the_passes_whose_byte_differs_are_marked() {
    let events = [
        envelope(1, 0x0100, 0, 5, 7, 0),
        envelope(1, 0x0200, 0, 5, 9, 1),
        envelope(1, 0x0100, 0, 5, 7, 2),
    ];
    assert_eq!(remote_envelope_varying_bytes(&events), (1 << 0) | (1 << 19));
}

#[test]
fn every_key_field_maps_to_its_own_passes() {
    let base = envelope(0x10, 0x20, 0x30, 0x40, 0x50, 0);
    let varied = envelope(0x11_0000, 0x21, 0x0130, 0x41, 0x51, 1);
    let mask = remote_envelope_varying_bytes(&[base, varied]);
    let expected = (1 << 0) | (1 << 8) | (1 << 17) | (1 << 18) | (1 << 26) | (1 << 28);
    assert_eq!(mask, expected);
}

#[test]
fn a_single_envelope_needs_no_pass() {
    assert_eq!(remote_envelope_varying_bytes(&[envelope(9, 9, 9, 9, 9, 9)]), 0);
}

#[test]
fn envelopes_are_ordered_target_major_and_ties_keep_their_order() {
    let mut events = vec![
        envelope(2, 5, 0, 0, 0, 0),
        envelope(1, 9, 0, 0, 0, 1),
        envelope(1, 5, 1, 0, 0, 2),
        envelope(1, 5, 0, 3, 0, 3),
        envelope(1, 5, 0, 2, 8, 4),
        envelope(1, 5, 0, 2, 8, 5),
        envelope(1, 5, 0, 2, 4, 6),
    ];
    radix_sort_remote_envelopes(&mut events);
    let payloads: Vec<u64> = events.iter().map(|envelope| envelope.event.payload.0).collect();
    assert_eq!(payloads, vec![6, 4, 5, 3, 2, 1, 0]);
}

#[test]
fn radix_order_matches_a_stable_sort_by_the_whole_key() {
    let mut state: u64 = 0x9e37_79b9_7f4a_7c15;
    let mut next = || {
        state ^= state << 13;
        state ^= state >> 7;
        state ^= state << 17;
        state
    };
    let mut events = Vec::new();
    for payload in 0..200 {
        let target = next() % 4 * 0x0100_0000_0000;
        let time = next() % 3 * 0x1_0000_0001;
        let phase = (next() % 3) as u16 * 0x0101;
        let node = next() % 2 * u64::MAX;
        let seq = next() % 5;
        events.push(envelope(target, time, phase, node, seq, payload));
    }
    let mut expected = events.clone();
    expected.sort_by_key(|envelope| {
        let event = envelope.event;
        (
            event.target.0,
            event.key.time_ns,
            event.key.phase,
            event.key.origin_node.0,
            event.key.origin_seq,
        )
    });
    radix_sort_remote_envelopes(&mut events);
    assert_eq!(events, expected);
}
