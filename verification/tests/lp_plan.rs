use std::collections::VecDeque;

use days_executor::cpu::ExecutionError;
use days_executor::event::{Event, EventKey, EventKind, FlowId, LinkId, NodeId, PayloadId};
use days_executor::image::{
    FlowDescriptor, HostState, NodeDescriptor, PacketDescriptor, PacketKind, SimulationImage,
    SwitchQueueState, SwitchState,
};
use days_executor::lp_plan::build_lp_plan;
use days_executor::model::{DropMarkPolicy, NodeKind, SchedulerKind};

fn packet(id: u64, flow: u64) -> PacketDescriptor {
    PacketDescriptor {
        id: PayloadId(id),
        flow: FlowId(flow),
        size_bytes: 100,
        ecn_marked: false,
        kind: PacketKind::Data,
    }
}

fn event(seq: u64, target: u64, kind: EventKind, payload: u64) -> Event {
    Event {
        key: EventKey { time_ns: 5, phase: 0, origin_node: NodeId(0), origin_seq: seq },
        target: NodeId(target),
        kind,
        payload: PayloadId(payload),
    }
}

fn host(egress: u64) -> HostState {
    HostState {
        egress_link: LinkId(egress),
        queue: VecDeque::new(),
        in_service: None,
        tx_ready_pending: false,
        generators: vec![],
        tcp_receivers: vec![],
        next_origin_seq: 0,
        next_payload_seq: 0,
        sourced_packets: 0,
        departed_packets: 0,
        received_packets: 0,
    }
}

fn switch() -> SwitchState {
    SwitchState {
        physical_switch: 0,
        queues: vec![SwitchQueueState {
            egress_link: Some(LinkId(1)),
            scheduler: SchedulerKind::Fifo,
            queue_capacity_packets: 4,
            drop_mark: DropMarkPolicy::TailDrop,
            pfc: None,
            queue: VecDeque::new(),
            in_service: None,
            tx_ready_pending: false,
        }],
        next_origin_seq: 0,
        arrived_packets: 0,
        dropped_packets: 0,
        departed_packets: 0,
    }
}

/// Host 0 sends through switch 1 to host 2.
fn image() -> SimulationImage {
    SimulationImage {
        stop_time_ns: 100,
        nodes: vec![
            NodeDescriptor { id: NodeId(0), kind: NodeKind::Host, state_slot: 0 },
            NodeDescriptor { id: NodeId(1), kind: NodeKind::Switch, state_slot: 0 },
            NodeDescriptor { id: NodeId(2), kind: NodeKind::Host, state_slot: 1 },
        ],
        host_states: vec![host(0), host(2)],
        switch_states: vec![switch()],
        flows: vec![FlowDescriptor {
            id: FlowId(0),
            source: NodeId(0),
            target: NodeId(2),
            priority: 0,
            route: vec![LinkId(0), LinkId(1)],
            reverse_route: vec![],
        }],
        initial_packets: vec![packet(10, 0), packet(11, 0)],
        links: vec![],
        channels: vec![],
        initial_events: vec![
            event(0, 0, EventKind::PacketArrival, 10),
            event(1, 1, EventKind::RemoteArrival, 11),
        ],
        seed: 0,
    }
}

#[test]
fn each_lp_gets_its_events_and_the_packets_they_carry() {
    let plans = build_lp_plan(&image()).expect("valid image");
    assert_eq!(plans.len(), 3);
    assert_eq!(plans[0].lp_slot, 0);
    assert_eq!(plans[0].futures, vec![event(0, 0, EventKind::PacketArrival, 10)]);
    assert_eq!(plans[0].packets, vec![packet(10, 0)]);
    assert_eq!(plans[1].node, NodeDescriptor { id: NodeId(1), kind: NodeKind::Switch, state_slot: 0 });
    assert_eq!(plans[1].futures, vec![event(1, 1, EventKind::RemoteArrival, 11)]);
    assert_eq!(plans[1].packets, vec![packet(11, 0)]);
    assert!(plans[2].futures.is_empty() && plans[2].packets.is_empty());
    assert!(plans.iter().all(|plan| plan.pinned.is_empty()));
}

#[test]
fn an_unreferenced_packet_is_pinned_at_its_flow_source() {
    let mut image = image();
    image.initial_packets.push(packet(12, 0));
    let plans = build_lp_plan(&image).expect("valid image");
    assert_eq!(plans[0].packets, vec![packet(10, 0), packet(12, 0)]);
    assert_eq!(plans[0].pinned, vec![PayloadId(12)]);
    assert!(plans[1].pinned.is_empty() && plans[2].pinned.is_empty());
}

#[test]
fn queued_packets_stay_with_their_queue_and_are_not_pinned() {
    let mut image = image();
    image.initial_packets.push(packet(12, 0));
    image.switch_states[0].queues[0].queue.push_back(PayloadId(12));
    let plans = build_lp_plan(&image).expect("valid image");
    assert_eq!(plans[1].packets, vec![packet(11, 0), packet(12, 0)]);
    assert_eq!(plans[0].packets, vec![packet(10, 0)]);
    assert!(plans.iter().all(|plan| plan.pinned.is_empty()));
}

#[test]
fn a_completing_transmission_is_pinned_where_it_is_served() {
    let mut image = image();
    image.initial_packets.push(packet(12, 0));
    image.host_states[1].in_service = Some(PayloadId(12));
    image.initial_events.push(event(2, 2, EventKind::TxComplete, 12));
    let plans = build_lp_plan(&image).expect("valid image");
    assert_eq!(plans[2].packets, vec![packet(12, 0)]);
    assert_eq!(plans[2].pinned, vec![PayloadId(12)]);
    assert!(plans[0].pinned.is_empty());

    image.initial_events.pop();
    let plans = build_lp_plan(&image).expect("valid image");
    assert_eq!(plans[2].packets, vec![packet(12, 0)]);
    assert!(plans[2].pinned.is_empty());
}

#[test]
fn refusals_come_in_order() {
    let mut repeated = image();
    repeated.initial_packets.push(packet(10, 0));
    repeated.initial_events.push(event(0, 0, EventKind::TxReady, 10));
    assert_eq!(build_lp_plan(&repeated), Err(ExecutionError::DuplicatePayload(PayloadId(10))));

    let mut key = image();
    key.initial_events.push(event(1, 2, EventKind::TxReady, 10));
    assert_eq!(
        build_lp_plan(&key),
        Err(ExecutionError::DuplicateEventKey(event(1, 2, EventKind::TxReady, 10).key))
    );

    let mut target = image();
    target.initial_events.push(event(2, 7, EventKind::TxReady, 10));
    assert_eq!(build_lp_plan(&target), Err(ExecutionError::UnknownNode(NodeId(7))));

    let mut payload = image();
    payload.initial_events.push(event(2, 2, EventKind::TxReady, 99));
    assert_eq!(build_lp_plan(&payload), Err(ExecutionError::UnknownPacket(PayloadId(99))));

    let mut slot = image();
    slot.nodes[2].state_slot = 5;
    assert_eq!(
        build_lp_plan(&slot),
        Err(ExecutionError::InvalidStateSlot {
            node: NodeId(2),
            kind: NodeKind::Host,
            state_slot: 5,
        })
    );

    let mut queued = image();
    queued.host_states[1].queue.push_back(PayloadId(98));
    assert_eq!(build_lp_plan(&queued), Err(ExecutionError::UnknownPacket(PayloadId(98))));

    let mut flow = image();
    flow.initial_packets.push(packet(12, 3));
    assert_eq!(build_lp_plan(&flow), Err(ExecutionError::UnknownFlow(FlowId(3))));

    let mut source = image();
    source.flows[0].source = NodeId(9);
    source.initial_packets.push(packet(12, 0));
    assert_eq!(build_lp_plan(&source), Err(ExecutionError::UnknownNode(NodeId(9))));

    let mut held = image();
    held.initial_packets.push(packet(12, 3));
    held.host_states[0].queue.push_back(PayloadId(12));
    assert!(build_lp_plan(&held).is_ok());
}

#[test]
fn every_initial_packet_is_held_by_some_lp() {
    let mut image = image();
    image.initial_packets.push(packet(12, 0));
    image.initial_packets.push(packet(13, 0));
    image.host_states[1].in_service = Some(PayloadId(13));
    let plans = build_lp_plan(&image).expect("valid image");
    for descriptor in &image.initial_packets {
        assert!(plans.iter().any(|plan| plan.packets.contains(descriptor)));
    }
}
