use std::collections::VecDeque;

use days_executor::cpu::{
    partition_round, static_work_partition, ExecutedLp, LpExecutionTiming, LpWorkEstimate,
    WorkClass, node_slot, prefer_worker_error, remote_order_byte, route_offered_load, validate_config,
    varying_byte_mask, ChunkGranularity, CpuConfig, CpuFaultInjection, CpuFaultKind,
    ExecutionError, FrontierEntry, OwnerFrontierIndex, StaticPartitionPolicy, StaticPlacement,
    NO_INDEX_SLOT,
};
use days_executor::event::{
    event_phase, Event, EventKey, EventKind, FlowId, LinkId, NodeId, PayloadId,
};
use days_executor::image::{
    ConstantGenerator, FlowDescriptor, FlowGeneratorKind, FlowGeneratorState,
    GeneratorFeedbackState, GeneratorStatus, GeneratorTermination, HostState, LinkDescriptor,
    NodeDescriptor, PacketDescriptor, PacketKind, RemoteChannel, ScheduledEmission,
    SimulationImage, SwitchQueueState, SwitchState,
};
use days_executor::model::{DropMarkPolicy, NodeKind, SchedulerKind};
use days_executor::placement::{
    partition_initial_ownership, partition_static_ownership, LpIdentity,
};

fn target_interleaved_outbox_image() -> SimulationImage {
    let source_link = LinkDescriptor {
        id: LinkId(0),
        source: NodeId(0),
        target: NodeId(1),
        rate_bps: 8_000_000_000,
        propagation_ns: 0,
    };
    let lower_port_link = LinkDescriptor {
        id: LinkId(1),
        source: NodeId(1),
        target: NodeId(3),
        rate_bps: 8_000_000_000,
        propagation_ns: 0,
    };
    let higher_port_link = LinkDescriptor {
        id: LinkId(2),
        source: NodeId(2),
        target: NodeId(4),
        rate_bps: 8_000_000_000,
        propagation_ns: 0,
    };
    let lower_sink_egress = LinkDescriptor {
        id: LinkId(3),
        source: NodeId(3),
        target: NodeId(0),
        rate_bps: 8_000_000_000,
        propagation_ns: 0,
    };
    let higher_sink_egress = LinkDescriptor {
        id: LinkId(4),
        source: NodeId(4),
        target: NodeId(0),
        rate_bps: 8_000_000_000,
        propagation_ns: 0,
    };
    let packets = (0..3)
        .map(|sequence| {
            let flow = FlowId(sequence);
            PacketDescriptor {
                id: PayloadId::from_node_sequence(NodeId(0), 5, sequence).unwrap(),
                flow,
                size_bytes: 1,
                ecn_marked: false,
                kind: PacketKind::Data,
            }
        })
        .collect::<Vec<_>>();
    let host = |egress_link: LinkId, next_seq: u64| HostState {
        egress_link,
        queue: VecDeque::new(),
        in_service: None,
        tx_ready_pending: false,
        generators: vec![],
        tcp_receivers: vec![],
        next_origin_seq: next_seq,
        next_payload_seq: next_seq,
        sourced_packets: 0,
        departed_packets: 0,
        received_packets: 0,
    };
    let switch = |egress_link: LinkId| SwitchState {
        physical_switch: 0,
        queues: vec![SwitchQueueState {
            egress_link: Some(egress_link),
            scheduler: SchedulerKind::Fifo,
            queue_capacity_packets: 1,
            drop_mark: DropMarkPolicy::TailDrop,
            pfc: None,
            queue: VecDeque::new(),
            in_service: None,
            tx_ready_pending: false,
        }],
        next_origin_seq: 0,
        arrived_packets: 0,
        dropped_packets: 0,
        departed_packets: 0,
    };
    let flow = |id: u64, target: u64, route: Vec<LinkId>| FlowDescriptor {
        id: FlowId(id),
        source: NodeId(0),
        target: NodeId(target),
        priority: 0,
        route,
        reverse_route: vec![],
    };

    SimulationImage {
        stop_time_ns: 3,
        nodes: vec![
            NodeDescriptor { id: NodeId(0), kind: NodeKind::Host, state_slot: 0 },
            NodeDescriptor { id: NodeId(1), kind: NodeKind::Switch, state_slot: 0 },
            NodeDescriptor { id: NodeId(2), kind: NodeKind::Switch, state_slot: 1 },
            NodeDescriptor { id: NodeId(3), kind: NodeKind::Host, state_slot: 1 },
            NodeDescriptor { id: NodeId(4), kind: NodeKind::Host, state_slot: 2 },
        ],
        host_states: vec![
            host(source_link.id, 3),
            host(lower_sink_egress.id, 0),
            host(higher_sink_egress.id, 0),
        ],
        switch_states: vec![switch(lower_port_link.id), switch(higher_port_link.id)],
        flows: vec![
            flow(0, 4, vec![source_link.id, higher_port_link.id]),
            flow(1, 3, vec![source_link.id, lower_port_link.id]),
            flow(2, 4, vec![source_link.id, higher_port_link.id]),
        ],
        initial_packets: packets.clone(),
        links: vec![
            source_link,
            lower_port_link,
            higher_port_link,
            lower_sink_egress,
            higher_sink_egress,
        ],
        channels: vec![
            RemoteChannel::for_packet_link_to(source_link, NodeId(2), 1).unwrap(),
            RemoteChannel::for_packet_link_to(source_link, NodeId(1), 1).unwrap(),
            RemoteChannel::for_packet_link(lower_port_link, 1).unwrap(),
            RemoteChannel::for_packet_link(higher_port_link, 1).unwrap(),
        ],
        initial_events: packets
            .iter()
            .enumerate()
            .map(|(origin_seq, packet)| Event {
                key: EventKey {
                    time_ns: 0,
                    phase: event_phase(EventKind::PacketArrival),
                    origin_node: NodeId(0),
                    origin_seq: origin_seq as u64,
                },
                target: NodeId(0),
                kind: EventKind::PacketArrival,
                payload: packet.id,
            })
            .collect(),
        seed: 1,
    }
}

#[test]
fn route_load_estimator_uses_only_declared_routes_and_generator_rates() {
    let mut image = target_interleaved_outbox_image();
    let intervals = [1_u64, 4, 1];
    image.host_states[0].generators = intervals
        .into_iter()
        .enumerate()
        .map(|(flow, interval_ns)| FlowGeneratorState {
            flow: FlowId(flow as u64),
            packets_emitted: 0,
            bytes_emitted: 0,
            next_emission: ScheduledEmission {
                status: GeneratorStatus::Finished,
                departure_time_ns: 0,
                payload: PayloadId(0),
            },
            rng_state: 0,
            feedback: GeneratorFeedbackState {
                arrivals: 0,
                outstanding_bytes: 0,
                unacknowledged_bytes: 0,
            },
            kind: FlowGeneratorKind::Constant(ConstantGenerator {
                first_departure_ns: 0,
                interval_ns,
                packet_size_bytes: 1,
                termination: GeneratorTermination::DurationNs(1),
            }),
        })
        .collect();

    let loads = route_offered_load(&image);
    let scale = 1_u128 << 64;
    assert_eq!(loads[NodeId(0).0 as usize], 2 * scale + scale / 4);
    assert_eq!(loads[NodeId(1).0 as usize], scale / 4);
    assert_eq!(loads[NodeId(2).0 as usize], 2 * scale);
    assert_eq!(loads[NodeId(3).0 as usize], 0);
    assert_eq!(loads[NodeId(4).0 as usize], 0);
}

#[test]
fn route_load_of_an_image_without_generators_is_zero() {
    let image = target_interleaved_outbox_image();
    assert_eq!(route_offered_load(&image), vec![0; 5]);
    assert_eq!(node_slot(&image, NodeId(3)), Some(3));
    assert_eq!(node_slot(&image, NodeId(5)), None);
}

#[test]
fn indexed_frontier_updates_remove_and_reinsert_without_stale_entries() {
    let key = |time_ns| EventKey { time_ns, phase: 0, origin_node: NodeId(0), origin_seq: time_ns };
    let mut frontier = OwnerFrontierIndex::new(2);
    let mut probes = 0;
    frontier.update(0, NodeId(4), Some(key(10)), &mut probes).unwrap();
    frontier.update(1, NodeId(2), Some(key(10)), &mut probes).unwrap();
    assert_eq!(frontier.next_time_ns(), &vec![10, 10]);
    assert_eq!(frontier.active(), &vec![true, true]);
    assert_eq!(frontier.index_slot()[1], 0, "NodeId breaks equal-time ties");

    frontier.update(1, NodeId(2), Some(key(20)), &mut probes).unwrap();
    assert_eq!(frontier.index_slot()[0], 0);
    frontier.update(0, NodeId(4), None, &mut probes).unwrap();
    assert_eq!(frontier.active(), &vec![false, true]);
    assert_eq!(frontier.len(), 1);

    frontier.update(0, NodeId(4), Some(key(20)), &mut probes).unwrap();
    assert_eq!(frontier.len(), 2);
    assert_eq!(frontier.index_slot()[1], 0, "NodeId breaks equal-time ties");
}

#[test]
fn frontier_pops_in_time_then_node_order_before_the_horizon() {
    let key = |time_ns| EventKey { time_ns, phase: 0, origin_node: NodeId(0), origin_seq: 0 };
    let mut frontier = OwnerFrontierIndex::new(4);
    let mut probes = 0;
    let mut pops = 0;
    frontier.update(0, NodeId(9), Some(key(30)), &mut probes).unwrap();
    frontier.update(1, NodeId(5), Some(key(10)), &mut probes).unwrap();
    frontier.update(2, NodeId(3), Some(key(10)), &mut probes).unwrap();
    frontier.update(3, NodeId(1), Some(key(50)), &mut probes).unwrap();
    assert_eq!(probes, 4);
    assert_eq!(
        frontier.update(7, NodeId(8), Some(key(1)), &mut probes),
        Err(ExecutionError::UnknownNode(NodeId(8)))
    );
    assert_eq!(probes, 5);

    let first = frontier.pop_before(40, &mut pops, &mut probes);
    assert_eq!(first, Some(FrontierEntry { time_ns: 10, node: NodeId(3), owner_slot: 2 }));
    let second = frontier.pop_before(40, &mut pops, &mut probes);
    assert_eq!(second, Some(FrontierEntry { time_ns: 10, node: NodeId(5), owner_slot: 1 }));
    let third = frontier.pop_before(40, &mut pops, &mut probes);
    assert_eq!(third, Some(FrontierEntry { time_ns: 30, node: NodeId(9), owner_slot: 0 }));
    assert_eq!(frontier.pop_before(40, &mut pops, &mut probes), None);
    assert_eq!(pops, 3);
    assert_eq!(frontier.len(), 1);
    assert_eq!(frontier.index_slot()[0], NO_INDEX_SLOT);
    assert_eq!(
        frontier.peek_min(&mut pops, &mut probes),
        Some(FrontierEntry { time_ns: 50, node: NodeId(1), owner_slot: 3 })
    );
}

#[test]
fn cpu_config_validation_names_each_refusal() {
    assert_eq!(validate_config(CpuConfig::default()), Ok(()));
    assert_eq!(CpuConfig::default().static_partition, StaticPartitionPolicy::RouteLoad);
    assert_eq!(ChunkGranularity::default(), ChunkGranularity::Static);
    let config = CpuConfig { workers: 0, ..CpuConfig::default() };
    assert_eq!(
        validate_config(config),
        Err(ExecutionError::InvalidCpuConfig("workers must be greater than zero"))
    );
    let config = CpuConfig { granularity: ChunkGranularity::Fixed(0), ..CpuConfig::default() };
    assert_eq!(
        validate_config(config),
        Err(ExecutionError::InvalidCpuConfig("fixed chunk granularity must be greater than zero"))
    );
    let config = CpuConfig {
        straggler_threshold_events: Some(8),
        dedicated_straggler_workers: 0,
        ..CpuConfig::default()
    };
    assert_eq!(
        validate_config(config),
        Err(ExecutionError::InvalidCpuConfig(
            "straggler routing requires at least one dedicated worker"
        ))
    );
    let config = CpuConfig {
        fault_injection: Some(CpuFaultInjection {
            worker: 1,
            round: 0,
            after_events: 1,
            kind: CpuFaultKind::Panic,
        }),
        ..CpuConfig::default()
    };
    assert_eq!(
        validate_config(config),
        Err(ExecutionError::InvalidCpuConfig("fault injection names a nonexistent worker"))
    );
}

#[test]
fn panics_outrank_failures_and_the_lowest_worker_wins() {
    let panic = |worker| ExecutionError::WorkerPanicked { worker };
    assert_eq!(prefer_worker_error(panic(3), panic(1)), panic(1));
    assert_eq!(prefer_worker_error(panic(1), panic(3)), panic(1));
    let failure = ExecutionError::UnknownNode(NodeId(2));
    assert_eq!(prefer_worker_error(failure, panic(4)), panic(4));
    assert_eq!(prefer_worker_error(panic(4), failure), panic(4));
    assert_eq!(prefer_worker_error(ExecutionError::WorkerChannelDisconnected, failure), failure);
    assert_eq!(prefer_worker_error(failure, ExecutionError::WorkerChannelDisconnected), failure);
}

#[test]
fn remote_order_bytes_walk_the_key_least_significant_first() {
    let event = Event {
        key: EventKey {
            time_ns: 0x0102,
            phase: 0x0a0b,
            origin_node: NodeId(0x33),
            origin_seq: 0x4455,
        },
        target: NodeId(0x7700),
        kind: EventKind::RemoteArrival,
        payload: PayloadId(0),
    };
    assert_eq!(remote_order_byte(event, 0), 0x55);
    assert_eq!(remote_order_byte(event, 1), 0x44);
    assert_eq!(remote_order_byte(event, 8), 0x33);
    assert_eq!(remote_order_byte(event, 16), 0x0b);
    assert_eq!(remote_order_byte(event, 17), 0x0a);
    assert_eq!(remote_order_byte(event, 18), 0x02);
    assert_eq!(remote_order_byte(event, 27), 0x77);
    assert_eq!(remote_order_byte(event, 40), 0);
    assert_eq!(varying_byte_mask(0x00ff_0000_0001, 8), (1 << 8) | (1 << 12));
    assert_eq!(varying_byte_mask(0, 26), 0);
}

#[test]
fn placement_locates_only_covered_slots() {
    let placement = StaticPlacement { workers: 2, owner_workers: vec![1, 0], owner_slots: vec![0, 0] };
    assert_eq!(placement.locate(0), Some((1, 0)));
    assert_eq!(placement.locate(1), Some((0, 0)));
    assert_eq!(placement.locate(2), None);
}

fn estimate(node: u64, estimated_events: u64) -> LpWorkEstimate {
    LpWorkEstimate { node: NodeId(node), estimated_events }
}

#[test]
fn round_partition_orders_lpt_and_splits_stragglers_from_bulk() {
    let config = CpuConfig {
        workers: 3,
        straggler_threshold_events: Some(10),
        dedicated_straggler_workers: 1,
        ..CpuConfig::default()
    };
    let active = vec![
        estimate(0, 3),
        estimate(1, 50),
        estimate(2, 7),
        estimate(3, 20),
        estimate(4, 7),
        estimate(5, 1),
    ];
    let assignment = partition_round(active, config);
    assert_eq!(assignment.partition.stragglers, vec![estimate(1, 50), estimate(3, 20)]);
    assert_eq!(assignment.dedicated_workers, vec![0]);
    assert_eq!(assignment.partition.reserved_straggler_workers, vec![0]);
    assert_eq!(assignment.bulk_workers, vec![1, 2]);
    assert_eq!(
        assignment.partition.bulk_chunks,
        vec![vec![estimate(2, 7), estimate(4, 7)], vec![estimate(0, 3), estimate(5, 1)]]
    );
}

#[test]
fn fixed_chunks_cut_bulk_work_without_stragglers() {
    let config = CpuConfig {
        workers: 1,
        granularity: ChunkGranularity::Fixed(2),
        ..CpuConfig::default()
    };
    let active = vec![estimate(0, 1), estimate(1, 2), estimate(2, 3)];
    let assignment = partition_round(active, config);
    assert!(assignment.partition.stragglers.is_empty());
    assert!(assignment.dedicated_workers.is_empty());
    assert_eq!(assignment.bulk_workers, vec![0]);
    assert_eq!(
        assignment.partition.bulk_chunks,
        vec![vec![estimate(2, 3), estimate(1, 2)], vec![estimate(0, 1)]]
    );
}

#[test]
fn static_partition_replays_the_measured_placement() {
    let executed = |node: u64, worker: usize, class: WorkClass, estimated_events: u64| ExecutedLp {
        timing: LpExecutionTiming {
            node: NodeId(node),
            worker,
            class,
            dispatch_order: 0,
            started_after_ns: 0,
            busy_ns: 0,
        },
        estimated_events,
    };
    let items = [
        executed(4, 2, WorkClass::Bulk, 3),
        executed(1, 0, WorkClass::Straggler, 40),
        executed(2, 2, WorkClass::Bulk, 9),
        executed(3, 1, WorkClass::Straggler, 40),
        executed(0, 0, WorkClass::Straggler, 90),
    ];
    let partition = static_work_partition(&items, true, 3);
    assert_eq!(partition.stragglers, vec![estimate(0, 90), estimate(1, 40), estimate(3, 40)]);
    assert_eq!(partition.bulk_chunks, vec![vec![estimate(2, 9), estimate(4, 3)]]);
    assert_eq!(partition.reserved_straggler_workers, vec![0, 1]);
    assert_eq!(static_work_partition(&items, false, 3), Default::default());
}

fn paced_route_image() -> SimulationImage {
    let mut image = target_interleaved_outbox_image();
    let intervals = [1_u64, 4, 1];
    image.host_states[0].generators = intervals
        .into_iter()
        .enumerate()
        .map(|(flow, interval_ns)| FlowGeneratorState {
            flow: FlowId(flow as u64),
            packets_emitted: 0,
            bytes_emitted: 0,
            next_emission: ScheduledEmission {
                status: GeneratorStatus::Finished,
                departure_time_ns: 0,
                payload: PayloadId(0),
            },
            rng_state: 0,
            feedback: GeneratorFeedbackState {
                arrivals: 0,
                outstanding_bytes: 0,
                unacknowledged_bytes: 0,
            },
            kind: FlowGeneratorKind::Constant(ConstantGenerator {
                first_departure_ns: 0,
                interval_ns,
                packet_size_bytes: 1,
                termination: GeneratorTermination::DurationNs(1),
            }),
        })
        .collect();
    image
}

fn identities(count: u64) -> Vec<LpIdentity> {
    (0..count)
        .map(|slot| LpIdentity {
            lp_slot: slot as usize,
            node: NodeId(slot),
        })
        .collect()
}

fn slots(list: &[LpIdentity]) -> Vec<usize> {
    list.iter().map(|lp| lp.lp_slot).collect()
}

#[test]
fn route_load_ownership_hands_the_heaviest_lp_to_the_least_loaded_worker() {
    let image = paced_route_image();
    let config = CpuConfig {
        workers: 2,
        static_partition: StaticPartitionPolicy::RouteLoad,
        ..CpuConfig::default()
    };
    let (lists, placement) =
        partition_static_ownership(identities(5), &image, config).expect("every slot is named once");
    assert_eq!(slots(&lists[0]), vec![0, 3, 4]);
    assert_eq!(slots(&lists[1]), vec![2, 1]);
    assert_eq!(placement.workers, 2);
    assert_eq!(placement.owner_workers, vec![0, 1, 1, 0, 0]);
    assert_eq!(placement.owner_slots, vec![0, 1, 0, 1, 2]);
}

#[test]
fn modulo_ownership_keeps_the_given_order() {
    let image = paced_route_image();
    let config = CpuConfig {
        workers: 2,
        static_partition: StaticPartitionPolicy::Modulo,
        ..CpuConfig::default()
    };
    let (lists, placement) =
        partition_static_ownership(identities(5), &image, config).expect("every slot is named once");
    assert_eq!(slots(&lists[0]), vec![0, 2, 4]);
    assert_eq!(slots(&lists[1]), vec![1, 3]);
    assert_eq!(placement.owner_workers, vec![0, 1, 0, 1, 0]);
    assert_eq!(placement.owner_slots, vec![0, 0, 1, 1, 2]);
    let initial = partition_initial_ownership(identities(5), 2);
    assert_eq!(initial, lists);
}

#[test]
fn ownership_refuses_unknown_and_unnamed_slots() {
    let image = paced_route_image();
    let config = CpuConfig {
        workers: 2,
        static_partition: StaticPartitionPolicy::Modulo,
        ..CpuConfig::default()
    };
    let mut stray = identities(3);
    stray[1] = LpIdentity {
        lp_slot: 7,
        node: NodeId(7),
    };
    assert_eq!(
        partition_static_ownership(stray, &image, config),
        Err(ExecutionError::UnknownNode(NodeId(7)))
    );
    let mut repeated = identities(3);
    repeated[2] = repeated[0];
    assert_eq!(
        partition_static_ownership(repeated, &image, config),
        Err(ExecutionError::UnknownNode(NodeId(0)))
    );
}
