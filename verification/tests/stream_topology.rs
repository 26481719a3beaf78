use std::collections::VecDeque;

use days_executor::cuda::CudaError;
use days_executor::event::{EventKind, FlowId, LinkId, NodeId, PayloadId};
use days_executor::image::{
    ConstantGenerator, FlowDescriptor, FlowGeneratorKind, FlowGeneratorState,
    GeneratorFeedbackState, GeneratorStatus, GeneratorTermination, HostState, NodeDescriptor,
    RemoteChannel, ScheduledEmission, SimulationImage, SwitchQueueState, SwitchState,
};
use days_executor::model::{DropMarkPolicy, NodeKind, SchedulerKind};
use days_executor::cuda::NONE;
use days_executor::stream_topology::{
    stream_plane_offsets, stream_state_plane, stream_topology, StreamPlaneOffsets,
};

fn channel(source: u64, target: u64) -> RemoteChannel {
    RemoteChannel {
        source: NodeId(source),
        target: NodeId(target),
        link: LinkId(0),
        event_kind: EventKind::RemoteArrival,
        min_delay_ns: 10,
    }
}

fn generator(flow: u64) -> FlowGeneratorState {
    FlowGeneratorState {
        flow: FlowId(flow),
        packets_emitted: 0,
        bytes_emitted: 0,
        next_emission: ScheduledEmission {
            status: GeneratorStatus::Scheduled,
            departure_time_ns: 0,
            payload: PayloadId(0),
        },
        rng_state: 0,
        feedback: GeneratorFeedbackState { arrivals: 0, outstanding_bytes: 0, unacknowledged_bytes: 0 },
        kind: FlowGeneratorKind::Constant(ConstantGenerator {
            first_departure_ns: 0,
            interval_ns: 10,
            packet_size_bytes: 100,
            termination: GeneratorTermination::Bytes(1_000),
        }),
    }
}

fn host(generators: Vec<FlowGeneratorState>) -> HostState {
    HostState {
        egress_link: LinkId(0),
        queue: VecDeque::new(),
        in_service: None,
        tx_ready_pending: false,
        generators,
        tcp_receivers: vec![],
        next_origin_seq: 0,
        next_payload_seq: 0,
        sourced_packets: 0,
        departed_packets: 0,
        received_packets: 0,
    }
}

fn flow(id: u64, source: u64, target: u64) -> FlowDescriptor {
    FlowDescriptor {
        id: FlowId(id),
        source: NodeId(source),
        target: NodeId(target),
        priority: 0,
        route: vec![],
        reverse_route: vec![],
    }
}

/// Host 0 sends through switch 1 to host 2, which sends back to host 0.
fn image() -> SimulationImage {
    SimulationImage {
        stop_time_ns: 100,
        nodes: vec![
            NodeDescriptor { id: NodeId(0), kind: NodeKind::Host, state_slot: 0 },
            NodeDescriptor { id: NodeId(1), kind: NodeKind::Switch, state_slot: 0 },
            NodeDescriptor { id: NodeId(2), kind: NodeKind::Host, state_slot: 1 },
        ],
        host_states: vec![host(vec![generator(1), generator(0)]), host(vec![])],
        switch_states: vec![SwitchState {
            physical_switch: 0,
            queues: vec![SwitchQueueState {
                egress_link: Some(LinkId(1)),
                scheduler: SchedulerKind::Fifo,
                queue_capacity_packets: 4,
                drop_mark: DropMarkPolicy::TailDrop,
                pfc: None,
                queue: VecDeque::new(),
                in_service: None,
                tx_ready_pending: false,
            }],
            next_origin_seq: 0,
            arrived_packets: 0,
            dropped_packets: 0,
            departed_packets: 0,
        }],
        flows: vec![flow(0, 0, 2), flow(1, 0, 2)],
        initial_packets: vec![],
        links: vec![],
        channels: vec![channel(0, 1), channel(1, 2), channel(2, 0)],
        initial_events: vec![],
        seed: 0,
    }
}

#[test]
fn lps_read_inbound_channels_their_service_stream_and_sourced_generators() {
    let (streams, outbound) = stream_topology(&image()).expect("one channel per LP pair");
    // Channels are streams 0..3, service streams 3..6, generator streams 6..8.
    assert_eq!(streams, vec![vec![2, 3, 6, 7], vec![0, 4], vec![1, 5]]);
    assert_eq!(outbound, vec![vec![(1, 0)], vec![(2, 1)], vec![(0, 2)]]);
}

#[test]
fn outbound_channels_ascend_by_target() {
    let mut image = image();
    image.channels.push(channel(1, 0));
    let (streams, outbound) = stream_topology(&image).expect("one channel per LP pair");
    assert_eq!(outbound[1], vec![(0, 3), (2, 1)]);
    assert_eq!(streams[0], vec![2, 3, 4, 7, 8]);
}

#[test]
fn parallel_channels_are_refused() {
    let mut image = image();
    image.channels.push(channel(0, 1));
    assert_eq!(
        stream_topology(&image),
        Err(CudaError::Validation(
            "stream classification requires one channel per source-target LP pair".to_string()
        ))
    );
}

#[test]
fn the_stream_plane_packs_its_regions_in_order() {
    let (streams, outbound) = stream_topology(&image()).expect("one channel per LP pair");
    let offsets = stream_plane_offsets(32, &streams, &outbound, 3, 2).expect("fits");
    assert_eq!(
        offsets,
        StreamPlaneOffsets {
            lp_stream_meta_offset: 32,
            lp_stream_ids_offset: 44,
            lp_active_ids_offset: 52,
            outbound_meta_offset: 107,
            outbound_entries_offset: 113,
            channel_batch_offset: 119,
            staging_channel_offset: 131,
            channel_target_offset: 133,
            state_words: 136,
        }
    );
    assert_eq!(
        stream_plane_offsets(usize::MAX - 10, &streams, &outbound, 3, 2),
        Err(CudaError::Validation("stream state size overflows usize".to_string()))
    );
    let empty = stream_plane_offsets(0, &vec![], &vec![], 0, 0).expect("fits");
    assert_eq!(empty.state_words, 1);
}

#[test]
fn the_stream_plane_holds_lists_heads_and_empty_batches() {
    let (streams, outbound) = stream_topology(&image()).expect("one channel per LP pair");
    let offsets = stream_plane_offsets(32, &streams, &outbound, 3, 2).expect("fits");
    let fel_meta = vec![1, 4, 0, 1, 2, 4, 0, 0, 3, 4, 0, 0];
    let mut fel_records = vec![0_u64; 4 * 14];
    fel_records[14..18].copy_from_slice(&[100, 101, 102, 103]);
    let plane = stream_state_plane(
        vec![7; 32],
        &streams,
        &outbound,
        &fel_meta,
        &fel_records,
        3,
        2,
        offsets,
    );
    let mut expected = vec![7_u64; 32];
    expected.extend([44, 4, 52, 1, 48, 2, 77, 0, 50, 2, 92, 0]);
    expected.extend([2, 3, 6, 7, 0, 4, 1, 5]);
    expected.extend([NONE, 100, 101, 102, 103]);
    expected.extend(vec![0; 20 + 15 + 15]);
    expected.extend([113, 1, 115, 1, 117, 1]);
    expected.extend([1, 0, 2, 1, 0, 2]);
    for _ in 0..3 {
        expected.extend([0, NONE, NONE, 0]);
    }
    expected.extend([NONE, NONE]);
    expected.extend([0, 1, 2]);
    assert_eq!(plane.len(), offsets.state_words);
    assert_eq!(plane, expected);
}
