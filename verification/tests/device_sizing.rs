use std::collections::VecDeque;

use days_executor::cuda::{CudaArena, CudaError};
use days_executor::cuda_plan::{
    derived_observation_capacities, derived_round_bound, derived_transition_bound,
    heap_push_host, remote_inbound_producers, timer_packet_for,
};
use days_executor::device_scheduler::device_scheduler_word_count;
use days_executor::device_sizing::{
    checked_product, checked_sum, event_arena_bytes, size_default_device_plan,
    tcp_data_attempt_bound, DeviceEventArenaSizing, DeviceSizingError, SizingFault,
    SizingQuantity,
};
use days_executor::event::{event_phase, Event, EventKey, EventKind, FlowId, LinkId, NodeId, PayloadId};
use days_executor::image::{
    ConstantGenerator, FlowDescriptor, FlowGeneratorKind, FlowGeneratorState,
    GeneratorFeedbackState, GeneratorStatus, GeneratorTermination, HostState, LinkDescriptor,
    NodeDescriptor, PacketDescriptor, PacketKind, RateGenerator, RemoteChannel,
    ScheduledEmission, SimulationImage, SwitchQueueState, SwitchState, TcpGenerator,
    TcpReceiverState, TcpAckHeader, TcpDataHeader, TcpTimerState,
};
use days_executor::model::{
    DropMarkPolicy, NodeKind, SchedulerKind, TcpCongestionControl, TcpPhase, TcpReno,
    WfqSchedulerState,
};
use days_executor::rate_work::{rate_device_work, RateDeviceWork};
use days_executor::time::TimeError;

fn link(id: u64, source: u64, target: u64) -> LinkDescriptor {
    LinkDescriptor {
        id: LinkId(id),
        source: NodeId(source),
        target: NodeId(target),
        rate_bps: 8_000_000_000,
        propagation_ns: 10,
    }
}

fn host(egress: u64, generators: Vec<FlowGeneratorState>) -> HostState {
    HostState {
        egress_link: LinkId(egress),
        queue: VecDeque::new(),
        in_service: None,
        tx_ready_pending: false,
        generators,
        tcp_receivers: vec![],
        next_origin_seq: 1,
        next_payload_seq: 1,
        sourced_packets: 0,
        departed_packets: 0,
        received_packets: 0,
    }
}

fn generator(kind: FlowGeneratorKind, payload: PayloadId) -> FlowGeneratorState {
    FlowGeneratorState {
        flow: FlowId(0),
        packets_emitted: 0,
        bytes_emitted: 0,
        next_emission: ScheduledEmission {
            status: GeneratorStatus::Scheduled,
            departure_time_ns: 0,
            payload,
        },
        rng_state: 0,
        feedback: GeneratorFeedbackState { arrivals: 0, outstanding_bytes: 0, unacknowledged_bytes: 0 },
        kind,
    }
}

fn constant(termination: GeneratorTermination) -> FlowGeneratorKind {
    FlowGeneratorKind::Constant(ConstantGenerator {
        first_departure_ns: 0,
        interval_ns: 100,
        packet_size_bytes: 100,
        termination,
    })
}

/// Two hosts joined by a link each way; host 0 sends three 100-byte packets to host 1.
fn paced_pair_image() -> SimulationImage {
    let payload = PayloadId(0);
    let forward = link(0, 0, 1);
    let backward = link(1, 1, 0);
    SimulationImage {
        stop_time_ns: 1_000,
        nodes: vec![
            NodeDescriptor { id: NodeId(0), kind: NodeKind::Host, state_slot: 0 },
            NodeDescriptor { id: NodeId(1), kind: NodeKind::Host, state_slot: 1 },
        ],
        host_states: vec![
            host(0, vec![generator(constant(GeneratorTermination::Bytes(300)), payload)]),
            host(1, vec![]),
        ],
        switch_states: vec![],
        flows: vec![FlowDescriptor {
            id: FlowId(0),
            source: NodeId(0),
            target: NodeId(1),
            priority: 0,
            route: vec![LinkId(0)],
            reverse_route: vec![],
        }],
        initial_packets: vec![PacketDescriptor {
            id: payload,
            flow: FlowId(0),
            size_bytes: 100,
            ecn_marked: false,
            kind: PacketKind::Data,
        }],
        links: vec![forward, backward],
        channels: vec![
            RemoteChannel::for_packet_link(forward, 100).unwrap(),
            RemoteChannel::for_packet_link(backward, 100).unwrap(),
        ],
        initial_events: vec![Event {
            key: EventKey {
                time_ns: 0,
                phase: event_phase(EventKind::PacketArrival),
                origin_node: NodeId(0),
                origin_seq: 0,
            },
            target: NodeId(0),
            kind: EventKind::PacketArrival,
            payload,
        }],
        seed: 7,
    }
}

fn empty_image() -> SimulationImage {
    SimulationImage {
        stop_time_ns: 0,
        nodes: vec![],
        host_states: vec![],
        switch_states: vec![],
        flows: vec![],
        initial_packets: vec![],
        links: vec![],
        channels: vec![],
        initial_events: vec![],
        seed: 0,
    }
}

const PLANE_NAMES: [&str; 28] = [
    "control",
    "params",
    "node_state",
    "generators",
    "flows",
    "routes",
    "links",
    "fel_meta",
    "fel_records",
    "queue_meta",
    "queue_records",
    "in_service",
    "outbox",
    "worklist",
    "summary",
    "observed",
    "departures",
    "arrivals",
    "lp_state",
    "remote_meta",
    "remote_staging",
    "observation_meta",
    "inbound_meta",
    "inbound_producers",
    "merge_cursors",
    "stream_state",
    "stream_records",
    "scheduler_state",
];

#[test]
fn an_empty_image_keeps_every_plane_at_its_floor() {
    let report = size_default_device_plan(&empty_image()).unwrap();
    let words: Vec<usize> = report.planes.iter().map(|plane| plane.words).collect();
    assert_eq!(
        words,
        vec![19, 35, 0, 43, 6, 1, 4, 0, 1, 0, 1, 1, 14, 1, 24, 1, 1, 1, 6, 0, 1, 0, 0, 1, 1, 1, 1, 1]
    );
    for (index, plane) in report.planes.iter().enumerate() {
        assert_eq!(plane.index, index);
        assert_eq!(plane.name, PLANE_NAMES[index]);
        assert_eq!(plane.bytes, plane.words * 8);
    }
    assert_eq!(report.total_device_bytes, 165 * 8);
    assert_eq!(
        report.event_arenas,
        DeviceEventArenaSizing {
            legacy_heap_event_slots: 0,
            fallback_heap_event_slots: 0,
            channel_stream_event_slots: 0,
            service_stream_event_slots: 0,
            generator_stream_event_slots: 0,
            heap_arena_bytes: 0,
            stream_arena_bytes: 8,
            legacy_heap_arena_bytes: 0,
        }
    );
}

#[test]
fn a_paced_pair_is_sized_plane_by_plane() {
    let report = size_default_device_plan(&paced_pair_image()).unwrap();
    let words: Vec<usize> = report.planes.iter().map(|plane| plane.words).collect();
    assert_eq!(
        words,
        vec![
            19, 35, 22, 43, 6, 1, 8, 8, 42, 8, 42, 28, 98, 2, 48, 1, 1, 1, 12, 8, 98, 24, 4, 1,
            1, 93, 182, 50,
        ]
    );
    assert_eq!(report.planes.len(), 28);
    assert_eq!(report.total_device_bytes, 886 * 8);
    assert_eq!(
        report.event_arenas,
        DeviceEventArenaSizing {
            legacy_heap_event_slots: 24,
            fallback_heap_event_slots: 3,
            channel_stream_event_slots: 7,
            service_stream_event_slots: 4,
            generator_stream_event_slots: 2,
            heap_arena_bytes: 400,
            stream_arena_bytes: 2_200,
            legacy_heap_arena_bytes: 2_752,
        }
    );
    assert_eq!(report.event_arenas.total_event_arena_bytes(), 2_600);
}

#[test]
fn a_tcp_image_adds_the_packed_tcp_plane() {
    let mut image = paced_pair_image();
    image.host_states[1].tcp_receivers = vec![TcpReceiverState::new(FlowId(0), 64)];
    let report = size_default_device_plan(&image).unwrap();
    assert_eq!(report.planes.len(), 29);
    let tcp = report.planes[28];
    assert_eq!(tcp.index, 28);
    assert_eq!(tcp.name, "tcp_state");
    assert_eq!(tcp.words, 4 + 4 + 2 + 4 + 14 + 8);
    assert_eq!(tcp.bytes, 36 * 8);
    assert_eq!(report.total_device_bytes, (886 + 36) * 8);
}

#[test]
fn two_channels_between_the_same_lps_are_refused() {
    let mut image = paced_pair_image();
    let duplicate = image.channels[0];
    image.channels.push(duplicate);
    assert_eq!(
        size_default_device_plan(&image),
        Err(DeviceSizingError(SizingFault::DuplicateChannelPair))
    );
}

#[test]
fn an_unclassified_hop_is_refused_with_its_identity() {
    let mut image = paced_pair_image();
    image.channels.remove(0);
    assert_eq!(
        size_default_device_plan(&image),
        Err(DeviceSizingError(SizingFault::MissingStreamClassification {
            link: LinkId(0),
            target: NodeId(1),
        }))
    );
}

#[test]
fn an_overflowing_duration_endpoint_is_refused() {
    let mut image = paced_pair_image();
    let mut generator = image.host_states[0].generators[0];
    generator.kind = FlowGeneratorKind::Constant(ConstantGenerator {
        first_departure_ns: 1,
        interval_ns: 100,
        packet_size_bytes: 100,
        termination: GeneratorTermination::DurationNs(u64::MAX),
    });
    image.host_states[0].generators[0] = generator;
    assert_eq!(
        size_default_device_plan(&image),
        Err(DeviceSizingError(SizingFault::DurationEndpointOverflow))
    );
}

#[test]
fn a_zero_rate_first_hop_is_refused_as_a_serialization_failure() {
    let mut image = paced_pair_image();
    image.links[0].rate_bps = 0;
    assert_eq!(
        size_default_device_plan(&image),
        Err(DeviceSizingError(SizingFault::SourceSerialization(TimeError::ZeroRate)))
    );
}

fn rate(total_bytes: u64, credit_quanta: u128, numerator: u64) -> RateGenerator {
    RateGenerator {
        first_pacing_time_ns: 0,
        pacing_interval_ns: 100,
        packet_size_bytes: 1_000,
        total_bytes,
        rate_numerator_bits_per_second: numerator,
        rate_denominator: 1,
        credit_quanta,
    }
}

#[test]
fn rate_work_counts_ticks_packets_and_payloads() {
    let image = paced_pair_image();
    let rate = rate(3_000, 0, 40_000_000_000);
    let state = generator(FlowGeneratorKind::Rate(rate), PayloadId(0));
    assert_eq!(
        rate_device_work(&image, &state, rate),
        RateDeviceWork { pacing_ticks: 6, packets: 3, payload_allocations: 2 }
    );
}

#[test]
fn rate_work_past_the_horizon_spends_every_tick() {
    let mut image = paced_pair_image();
    image.stop_time_ns = 300;
    let rate = rate(3_000, 0, 40_000_000_000);
    let state = generator(FlowGeneratorKind::Rate(rate), PayloadId(0));
    // Four ticks buy two full packets, and the last packet would need two more.
    assert_eq!(
        rate_device_work(&image, &state, rate),
        RateDeviceWork { pacing_ticks: 4, packets: 2, payload_allocations: 1 }
    );
}

#[test]
fn an_inactive_rate_generator_owes_nothing() {
    let image = paced_pair_image();
    let rate = rate(3_000, 0, 40_000_000_000);
    let mut state = generator(FlowGeneratorKind::Rate(rate), PayloadId(0));
    state.next_emission.status = GeneratorStatus::Finished;
    assert_eq!(rate_device_work(&image, &state, rate), RateDeviceWork::default());
    state.next_emission.status = GeneratorStatus::Blocked;
    state.bytes_emitted = 3_000;
    assert_eq!(rate_device_work(&image, &state, rate), RateDeviceWork::default());
}

#[test]
fn initial_credit_pays_for_packets_without_ticks() {
    let image = paced_pair_image();
    // Credit for all three packets up front and no per-tick credit at all.
    let rate = rate(3_000, 24_000_000_000_000, 0);
    let state = generator(FlowGeneratorKind::Rate(rate), PayloadId(0));
    assert_eq!(
        rate_device_work(&image, &state, rate),
        RateDeviceWork { pacing_ticks: 3, packets: 3, payload_allocations: 2 }
    );
}

#[test]
fn tcp_attempts_double_the_remaining_segments_and_count_preloaded_acks() {
    let mut image = paced_pair_image();
    let tcp = TcpGenerator::new(
        2_500,
        1_000,
        64,
        TcpCongestionControl::Reno(TcpReno {
            mss_bytes: 1_000,
            cwnd_bytes: 1_000,
            ssthresh_bytes: u64::MAX,
            phase: TcpPhase::SlowStart,
            duplicate_acks: 0,
            recovery_high_sequence: 0,
            ca_credit: 0,
        }),
    );
    image.initial_packets.push(PacketDescriptor {
        id: PayloadId(9),
        flow: FlowId(0),
        size_bytes: 64,
        ecn_marked: false,
        kind: PacketKind::TcpAck(TcpAckHeader {
            acknowledgment: 0,
            acknowledged_bytes: 0,
            echoed_sent_time_ns: 0,
        }),
    });
    let state = generator(FlowGeneratorKind::Tcp(tcp), PayloadId(0));
    // Three nominal segments, doubled, plus one preloaded ACK, plus two.
    assert_eq!(tcp_data_attempt_bound(&image, &state, tcp), 9);
    let mut finished = state;
    finished.next_emission.status = GeneratorStatus::Stopped;
    assert_eq!(tcp_data_attempt_bound(&image, &finished, tcp), 0);
}

#[test]
fn sizing_helpers_name_their_overflow() {
    assert_eq!(checked_product(6, 7, SizingQuantity::LinkPlane), Ok(42));
    assert_eq!(
        checked_product(usize::MAX, 2, SizingQuantity::LinkPlane),
        Err(DeviceSizingError(SizingFault::Overflow(SizingQuantity::LinkPlane)))
    );
    assert_eq!(checked_sum(&[1, 2, 3], SizingQuantity::QueueSlots), Ok(6));
    assert_eq!(
        checked_sum(&[usize::MAX, 1], SizingQuantity::QueueSlots),
        Err(DeviceSizingError(SizingFault::Overflow(SizingQuantity::QueueSlots)))
    );
    assert_eq!(event_arena_bytes(3, 2), Ok((3 * 14 + 2 * 4) * 8));
    assert_eq!(
        event_arena_bytes(usize::MAX, 0),
        Err(DeviceSizingError(SizingFault::Overflow(SizingQuantity::EventArenaBytes)))
    );
}

#[test]
fn total_event_arena_bytes_saturates() {
    let arenas = DeviceEventArenaSizing {
        heap_arena_bytes: usize::MAX,
        stream_arena_bytes: 1,
        ..DeviceEventArenaSizing::default()
    };
    assert_eq!(arenas.total_event_arena_bytes(), usize::MAX);
}

#[test]
fn weighted_fair_queues_reserve_a_rational_tag_per_queue_slot() {
    let mut image = paced_pair_image();
    image.nodes.push(NodeDescriptor { id: NodeId(2), kind: NodeKind::Switch, state_slot: 0 });
    image.switch_states.push(SwitchState {
        physical_switch: 0,
        queues: vec![SwitchQueueState {
            egress_link: None,
            scheduler: SchedulerKind::WeightedFairQueue(WfqSchedulerState {
                weights: vec![1, 2, 3],
                active_packets: vec![0, 0, 0],
                last_updated_ns: 0,
            }),
            queue_capacity_packets: 0,
            drop_mark: DropMarkPolicy::TailDrop,
            pfc: None,
            queue: VecDeque::new(),
            in_service: None,
            tx_ready_pending: false,
        }],
        next_origin_seq: 0,
        arrived_packets: 0,
        dropped_packets: 0,
        departed_packets: 0,
    });
    // Three LPs of fixed words, three classes, and ten words for each of four queue slots.
    assert_eq!(device_scheduler_word_count(&image, &vec![1, 1, 4]), Ok(3 * 25 + 3 * 12 + 4 * 10));
    assert_eq!(device_scheduler_word_count(&empty_image(), &vec![]), Ok(1));
}

#[test]
fn observation_logs_count_sources_hops_and_events() {
    let image = paced_pair_image();
    assert_eq!(derived_observation_capacities(&image, &vec![3], &vec![0]), vec![11, 4]);
}

#[test]
fn inbound_producer_lists_are_per_target_and_ascending() {
    let mut image = paced_pair_image();
    image.flows[0].reverse_route = vec![LinkId(1)];
    let (meta, producers) = remote_inbound_producers(&image);
    assert_eq!(meta, vec![0, 1, 1, 1]);
    assert_eq!(producers, vec![1, 0]);
    // A third host feeding host 1 lands after host 0 in host 1's ascending list.
    image.nodes.push(NodeDescriptor { id: NodeId(2), kind: NodeKind::Host, state_slot: 2 });
    image.host_states.push(host(2, vec![]));
    image.links.push(link(2, 2, 1));
    image.flows.push(FlowDescriptor {
        id: FlowId(1),
        source: NodeId(2),
        target: NodeId(1),
        priority: 0,
        route: vec![LinkId(2)],
        reverse_route: vec![],
    });
    let (meta, producers) = remote_inbound_producers(&image);
    assert_eq!(meta, vec![0, 1, 1, 2, 3, 0]);
    assert_eq!(producers, vec![1, 0, 2]);
}

#[test]
fn transition_bound_counts_events_and_hop_transitions() {
    let image = paced_pair_image();
    // Two for the initial event and the start, twelve for three packets over one hop.
    assert_eq!(derived_transition_bound(&image, &vec![3]), 14);
}

#[test]
fn round_bound_counts_lookahead_windows_to_the_run_end() {
    let image = paced_pair_image();
    // 1001 ns from the first event to the inclusive stop, in 110 ns windows, plus two.
    assert_eq!(derived_round_bound(&image, None, 14), 12);
    assert_eq!(derived_round_bound(&image, Some(200), 14), 4);
    assert_eq!(derived_round_bound(&image, None, 0), 2);
    assert_eq!(derived_round_bound(&empty_image(), None, 14), 1);
    let mut no_channels = paced_pair_image();
    no_channels.channels.clear();
    assert_eq!(derived_round_bound(&no_channels, None, 14), 2);
}

fn keyed_record(time_ns: u64, marker: u64) -> [u64; 14] {
    let mut record = [0_u64; 14];
    record[0] = time_ns;
    record[13] = marker;
    record
}

fn heap_times(storage: &[u64], count: usize) -> Vec<u64> {
    (0..count).map(|slot| storage[slot * 14]).collect()
}

#[test]
fn host_heap_pushes_sift_the_earliest_record_to_the_root() {
    let mut meta = vec![0, 4, 0, 0];
    let mut storage = vec![0_u64; 4 * 14];
    for (time, marker) in [(30, 1), (20, 2), (10, 3)] {
        assert_eq!(heap_push_host(0, keyed_record(time, marker), &mut meta, &mut storage), Ok(()));
    }
    assert_eq!(meta, vec![0, 4, 0, 3]);
    assert_eq!(heap_times(&storage, 3), vec![10, 30, 20]);
    // Whole records move with their keys.
    assert_eq!(storage[13], 3);
    assert_eq!(storage[14 + 13], 1);
    assert_eq!(heap_push_host(0, keyed_record(15, 4), &mut meta, &mut storage), Ok(()));
    assert_eq!(heap_times(&storage, 4), vec![10, 15, 20, 30]);
    assert_eq!(
        heap_push_host(0, keyed_record(5, 5), &mut meta, &mut storage),
        Err(CudaError::CapacityExceeded {
            arena: CudaArena::Fel,
            node: Some(NodeId(0)),
            flow: None,
            stream: None,
            capacity: 4,
            demand: 5,
        })
    );
    assert_eq!(meta, vec![0, 4, 0, 4]);
}

#[test]
fn a_second_lp_heap_starts_at_its_own_offset() {
    let mut meta = vec![0, 1, 0, 0, 1, 2, 0, 0];
    let mut storage = vec![0_u64; 3 * 14];
    assert_eq!(heap_push_host(1, keyed_record(7, 1), &mut meta, &mut storage), Ok(()));
    assert_eq!(heap_push_host(1, keyed_record(3, 2), &mut meta, &mut storage), Ok(()));
    assert_eq!(storage[0], 0);
    assert_eq!(storage[14], 3);
    assert_eq!(storage[28], 7);
    assert_eq!(meta, vec![0, 1, 0, 0, 1, 2, 0, 2]);
}

fn timeout_event(payload: u64, time_ns: u64) -> Event {
    Event {
        key: EventKey {
            time_ns,
            phase: event_phase(EventKind::RetransmissionTimeout),
            origin_node: NodeId(0),
            origin_seq: 0,
        },
        target: NodeId(0),
        kind: EventKind::RetransmissionTimeout,
        payload: PayloadId(payload),
    }
}

fn armed_sender(flow: u64, attempt: u64, sequence: u64, deadline_ns: u64) -> FlowGeneratorState {
    let mut tcp = TcpGenerator::new(
        10_000,
        1_000,
        64,
        TcpCongestionControl::Reno(TcpReno {
            mss_bytes: 1_000,
            cwnd_bytes: 1_000,
            ssthresh_bytes: u64::MAX,
            phase: TcpPhase::SlowStart,
            duplicate_acks: 0,
            recovery_high_sequence: 0,
            ca_credit: 0,
        }),
    );
    tcp.active_timer = Some(TcpTimerState {
        attempt: PayloadId(attempt),
        sequence,
        deadline_ns,
        generation: 1,
        rto_ns: 1_000,
    });
    let mut state = generator(FlowGeneratorKind::Tcp(tcp), PayloadId(attempt));
    state.flow = FlowId(flow);
    state
}

#[test]
fn a_timeout_becomes_a_retransmission_of_its_owning_segment() {
    let mut image = paced_pair_image();
    image.host_states[0].generators = vec![armed_sender(0, 40, 3_000, 500)];
    let expected = |flow: u64, sequence: u64| PacketDescriptor {
        id: PayloadId(40),
        flow: FlowId(flow),
        size_bytes: 0,
        ecn_marked: false,
        kind: PacketKind::TcpData(TcpDataHeader {
            sequence,
            sent_time_ns: 500,
            retransmission: true,
        }),
    };
    assert_eq!(timer_packet_for(&image, timeout_event(40, 500)), Ok(expected(0, 3_000)));
    // A stale timeout owned by no armed timer keeps its payload and names no flow.
    let stale = timer_packet_for(&image, timeout_event(40, 600)).unwrap();
    assert_eq!(stale.flow, FlowId(u64::MAX));
    assert_eq!(stale.kind, PacketKind::TcpData(TcpDataHeader {
        sequence: 0,
        sent_time_ns: 600,
        retransmission: true,
    }));
    image.host_states[0].generators.push(armed_sender(1, 40, 7_000, 500));
    assert!(matches!(
        timer_packet_for(&image, timeout_event(40, 500)),
        Err(CudaError::Validation(_))
    ));
    let mut switch_target = timeout_event(40, 500);
    switch_target.target = NodeId(9);
    assert!(matches!(timer_packet_for(&image, switch_target), Err(CudaError::Validation(_))));
}

#[test]
fn timeout_refusals_name_the_key_and_payload() {
    let mut image = paced_pair_image();
    image.host_states[0].generators =
        vec![armed_sender(0, 40, 3_000, 500), armed_sender(1, 40, 7_000, 500)];
    let key = timeout_event(40, 500).key;
    let key_text = format!(
        "EventKey {{ time_ns: 500, phase: {}, origin_node: NodeId(0), origin_seq: 0 }}",
        key.phase
    );
    assert_eq!(
        timer_packet_for(&image, timeout_event(40, 500)),
        Err(CudaError::Validation(format!(
            "TCP timeout {key_text} payload PayloadId(40) has multiple owning active timers"
        )))
    );
    let mut switch_target = timeout_event(40, 500);
    switch_target.target = NodeId(9);
    assert_eq!(
        timer_packet_for(&image, switch_target),
        Err(CudaError::Validation(format!("TCP timeout {key_text} targets no host state")))
    );
    assert_eq!(format!("{key:?}"), key_text);
}

#[test]
fn sizing_refusals_read_as_diagnostics() {
    assert_eq!(
        DeviceSizingError(SizingFault::Overflow(SizingQuantity::SchedulerQueueTagArena)).message(),
        "device scheduler queue-tag arena overflows usize"
    );
    assert_eq!(
        DeviceSizingError(SizingFault::SourceSerialization(TimeError::ZeroRate)).message(),
        "source serialization failed: ZeroRate"
    );
    assert_eq!(
        DeviceSizingError(SizingFault::MissingStreamClassification {
            link: LinkId(4),
            target: NodeId(2),
        })
        .message(),
        "no stream classification for link LinkId(4) to node NodeId(2)"
    );
    assert_eq!(
        DeviceSizingError(SizingFault::DurationEndpointOverflow).message(),
        "generator duration endpoint overflows"
    );
    assert_eq!(SizingQuantity::StreamArenaBytes.message(), "stream arena bytes overflow usize");
}
