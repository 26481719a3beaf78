//! Initial holdings of each logical process: the initial events it executes, the packets it
//! starts out holding, and the otherwise unreferenced packets it keeps alive.
//!
//! An image is refused, in this order, for a payload identity listed twice, then for the first
//! initial event with a repeated key, an unknown target or an unknown payload, then for the
//! first LP whose state slot is missing or whose queued or in-service packets are unknown, and
//! last for the first packet that no LP holds and whose flow or flow source is unknown.

use vstd::prelude::*;

use crate::cpu::{node_slot, spec_node_slot, ExecutionError};
use crate::event::{Event, EventKind, PayloadId};
use crate::image::{NodeDescriptor, PacketDescriptor, SimulationImage, SwitchQueueState};
use crate::model::NodeKind;

verus! {

/// The initial holdings of one logical process.
#[derive(Clone, Debug, PartialEq, Eq)]
pub struct LpPlan {
    pub lp_slot: usize,
    pub node: NodeDescriptor,
    /// The initial events this LP executes, in image order; their keys are distinct.
    pub futures: Vec<Event>,
    /// Descriptors of the packets this LP starts out holding, in initial-packet order.
    pub packets: Vec<PacketDescriptor>,
    /// Packets this LP keeps although no arrival names them and no queue holds them, in
    /// initial-packet order.
    pub pinned: Vec<PayloadId>,
}

// ---------------------------------------------------------------------------------------------
// What an image says about one packet identity.
// ---------------------------------------------------------------------------------------------

/// Some initial packet carries identity `id`.
pub open spec fn spec_has_descriptor(image: SimulationImage, id: PayloadId) -> bool {
    exists|i: int|
        0 <= i < image.initial_packets@.len() && (#[trigger] image.initial_packets@[i]).id == id
}

/// Initial packet `i` repeats the identity of an earlier one.
pub open spec fn spec_repeats_payload(packets: Seq<PacketDescriptor>, i: int) -> bool {
    exists|j: int| 0 <= j < i && (#[trigger] packets[j]).id == packets[i].id
}

/// The identity of the first initial packet at or after `i` that repeats an earlier one.
pub open spec fn spec_first_repeat(packets: Seq<PacketDescriptor>, i: int) -> Option<PayloadId>
    decreases packets.len() - i,
{
    if i < 0 || i >= packets.len() {
        None
    } else if spec_repeats_payload(packets, i) {
        Some(packets[i].id)
    } else {
        spec_first_repeat(packets, i + 1)
    }
}

/// Waiting packets of the first `upto` queues of a switch, queue by queue.
pub open spec fn spec_switch_queued(queues: Seq<SwitchQueueState>, upto: int) -> Seq<PayloadId>
    decreases upto,
{
    if upto <= 0 {
        Seq::empty()
    } else {
        spec_switch_queued(queues, upto - 1) + queues[upto - 1].queue@
    }
}

/// In-service packets of the first `upto` queues of a switch.
pub open spec fn spec_switch_serving(queues: Seq<SwitchQueueState>, upto: int) -> Seq<PayloadId>
    decreases upto,
{
    if upto <= 0 {
        Seq::empty()
    } else {
        match queues[upto - 1].in_service {
            Some(payload) => spec_switch_serving(queues, upto - 1).push(payload),
            None => spec_switch_serving(queues, upto - 1),
        }
    }
}

/// LP `slot` names a state record that exists.
pub open spec fn spec_state_valid(image: SimulationImage, slot: int) -> bool {
    let node = image.nodes@[slot];
    match node.kind {
        NodeKind::Host => node.state_slot < image.host_states@.len(),
        NodeKind::Switch => node.state_slot < image.switch_states@.len(),
    }
}

/// The packets waiting in LP `slot`'s queues.
pub open spec fn spec_queued_at(image: SimulationImage, slot: int) -> Seq<PayloadId> {
    let node = image.nodes@[slot];
    match node.kind {
        NodeKind::Host => image.host_states@[node.state_slot as int].queue@,
        NodeKind::Switch => {
            let queues = image.switch_states@[node.state_slot as int].queues@;
            spec_switch_queued(queues, queues.len() as int)
        },
    }
}

/// The packets LP `slot` is transmitting.
pub open spec fn spec_serving_at(image: SimulationImage, slot: int) -> Seq<PayloadId> {
    let node = image.nodes@[slot];
    match node.kind {
        NodeKind::Host => match image.host_states@[node.state_slot as int].in_service {
            Some(payload) => seq![payload],
            None => Seq::empty(),
        },
        NodeKind::Switch => {
            let queues = image.switch_states@[node.state_slot as int].queues@;
            spec_switch_serving(queues, queues.len() as int)
        },
    }
}

/// The first identity at or after `k` in `list` that no initial packet carries.
pub open spec fn spec_first_unknown(image: SimulationImage, list: Seq<PayloadId>, k: int) -> Option<
    PayloadId,
>
    decreases list.len() - k,
{
    if k < 0 || k >= list.len() {
        None
    } else if !spec_has_descriptor(image, list[k]) {
        Some(list[k])
    } else {
        spec_first_unknown(image, list, k + 1)
    }
}

/// Initial event `i` repeats the key of an earlier one.
pub open spec fn spec_repeats_key(events: Seq<Event>, i: int) -> bool {
    exists|j: int| 0 <= j < i && (#[trigger] events[j]).key == events[i].key
}

/// The refusal of the first initial event at or after `i` with a repeated key, an unknown
/// target or an unknown payload.
pub open spec fn spec_event_error(image: SimulationImage, i: int) -> Option<ExecutionError>
    decreases image.initial_events@.len() - i,
{
    let events = image.initial_events@;
    if i < 0 || i >= events.len() {
        None
    } else if spec_repeats_key(events, i) {
        Some(ExecutionError::DuplicateEventKey(events[i].key))
    } else if spec_node_slot(image, events[i].target) is None {
        Some(ExecutionError::UnknownNode(events[i].target))
    } else if !spec_has_descriptor(image, events[i].payload) {
        Some(ExecutionError::UnknownPacket(events[i].payload))
    } else {
        spec_event_error(image, i + 1)
    }
}

/// The refusal of the first LP at or after `slot` whose state slot is missing or whose waiting
/// or in-service packets are unknown.
pub open spec fn spec_state_error(image: SimulationImage, slot: int) -> Option<ExecutionError>
    decreases image.nodes@.len() - slot,
{
    if slot < 0 || slot >= image.nodes@.len() {
        None
    } else if !spec_state_valid(image, slot) {
        let node = image.nodes@[slot];
        Some(
            ExecutionError::InvalidStateSlot {
                node: node.id,
                kind: node.kind,
                state_slot: node.state_slot,
            },
        )
    } else {
        match spec_first_unknown(
            image,
            spec_queued_at(image, slot) + spec_serving_at(image, slot),
            0,
        ) {
            Some(payload) => Some(ExecutionError::UnknownPacket(payload)),
            None => spec_state_error(image, slot + 1),
        }
    }
}

/// LP `slot` executes an initial event that carries `id`.
pub open spec fn spec_event_holds(image: SimulationImage, slot: int, id: PayloadId) -> bool {
    exists|i: int|
        0 <= i < image.initial_events@.len() && (#[trigger] image.initial_events@[i]).payload == id
            && spec_node_slot(image, image.initial_events@[i].target) == Some(slot as usize)
}

/// LP `slot` holds `id` through an initial event, a queue or a transmission.
pub open spec fn spec_base_holds(image: SimulationImage, slot: int, id: PayloadId) -> bool {
    ||| spec_event_holds(image, slot, id)
    ||| spec_queued_at(image, slot).contains(id)
    ||| spec_serving_at(image, slot).contains(id)
}

/// The first LP at or after `slot` that holds `id` through an event, a queue or a transmission.
pub open spec fn spec_first_holder(image: SimulationImage, id: PayloadId, slot: int) -> Option<usize>
    decreases image.nodes@.len() - slot,
{
    if slot < 0 || slot >= image.nodes@.len() {
        None
    } else if spec_base_holds(image, slot, id) {
        Some(slot as usize)
    } else {
        spec_first_holder(image, id, slot + 1)
    }
}

/// The packet's flow is listed at the index its identity names.
pub open spec fn spec_flow_known(image: SimulationImage, packet: PacketDescriptor) -> bool {
    packet.flow.0 < image.flows@.len() && image.flows@[packet.flow.0 as int].id == packet.flow
}

/// The LP of the packet's flow source, when the flow and its source are known.
pub open spec fn spec_source_slot(image: SimulationImage, packet: PacketDescriptor) -> Option<usize> {
    if spec_flow_known(image, packet) {
        spec_node_slot(image, image.flows@[packet.flow.0 as int].source)
    } else {
        None
    }
}

/// The refusal of the first initial packet at or after `i` that no LP holds and whose flow or
/// flow source is unknown.
pub open spec fn spec_descriptor_error(image: SimulationImage, i: int) -> Option<ExecutionError>
    decreases image.initial_packets@.len() - i,
{
    let packets = image.initial_packets@;
    if i < 0 || i >= packets.len() {
        None
    } else if spec_first_holder(image, packets[i].id, 0) is None && !spec_flow_known(
        image,
        packets[i],
    ) {
        Some(ExecutionError::UnknownFlow(packets[i].flow))
    } else if spec_first_holder(image, packets[i].id, 0) is None && spec_source_slot(
        image,
        packets[i],
    ) is None {
        Some(ExecutionError::UnknownNode(image.flows@[packets[i].flow.0 as int].source))
    } else {
        spec_descriptor_error(image, i + 1)
    }
}

/// Why an image cannot be split into logical processes, if it cannot.
pub open spec fn spec_lp_error(image: SimulationImage) -> Option<ExecutionError> {
    if spec_first_repeat(image.initial_packets@, 0) is Some {
        Some(ExecutionError::DuplicatePayload(spec_first_repeat(image.initial_packets@, 0)->0))
    } else if spec_event_error(image, 0) is Some {
        spec_event_error(image, 0)
    } else if spec_state_error(image, 0) is Some {
        spec_state_error(image, 0)
    } else {
        spec_descriptor_error(image, 0)
    }
}

/// Some initial arrival, local or remote, carries `id`.
pub open spec fn spec_arrives(image: SimulationImage, id: PayloadId) -> bool {
    exists|i: int|
        0 <= i < image.initial_events@.len() && (#[trigger] image.initial_events@[i]).payload == id
            && (image.initial_events@[i].kind is PacketArrival
            || image.initial_events@[i].kind is RemoteArrival)
}

/// Some initial transmission completion carries `id`.
pub open spec fn spec_completes(image: SimulationImage, id: PayloadId) -> bool {
    exists|i: int|
        0 <= i < image.initial_events@.len() && (#[trigger] image.initial_events@[i]).payload == id
            && image.initial_events@[i].kind is TxComplete
}

/// Some LP's queue holds `id`.
pub open spec fn spec_queued_anywhere(image: SimulationImage, id: PayloadId) -> bool {
    exists|slot: int|
        0 <= slot < image.nodes@.len() && #[trigger] spec_queued_at(image, slot).contains(id)
}

/// Some LP is transmitting `id`.
pub open spec fn spec_serving_anywhere(image: SimulationImage, id: PayloadId) -> bool {
    exists|slot: int|
        0 <= slot < image.nodes@.len() && #[trigger] spec_serving_at(image, slot).contains(id)
}

/// No arrival names the packet and no queue holds it, and it is either not in service or its
/// completion is already scheduled: nothing would keep it alive.
pub open spec fn spec_orphan(image: SimulationImage, id: PayloadId) -> bool {
    &&& !spec_arrives(image, id)
    &&& !spec_queued_anywhere(image, id)
    &&& (!spec_serving_anywhere(image, id) || spec_completes(image, id))
}

/// LP `slot` holds the packet: through an event, a queue or a transmission, or, when no LP
/// does, as the LP of its flow source.
pub open spec fn spec_holds(image: SimulationImage, slot: int, packet: PacketDescriptor) -> bool {
    ||| spec_base_holds(image, slot, packet.id)
    ||| (spec_first_holder(image, packet.id, 0) is None && spec_source_slot(image, packet) == Some(
        slot as usize,
    ))
}

/// LP `slot` keeps the orphaned packet alive: it is the first LP holding it, or no LP holds it
/// and `slot` is its flow source.
pub open spec fn spec_pins(image: SimulationImage, slot: int, packet: PacketDescriptor) -> bool {
    &&& spec_orphan(image, packet.id)
    &&& (spec_first_holder(image, packet.id, 0) == Some(slot as usize) || (spec_first_holder(
        image,
        packet.id,
        0,
    ) is None && spec_source_slot(image, packet) == Some(slot as usize)))
}

/// The first `upto` initial events that LP `slot` executes, in image order.
pub open spec fn spec_futures(image: SimulationImage, slot: int, upto: int) -> Seq<Event>
    decreases upto,
{
    if upto <= 0 {
        Seq::empty()
    } else {
        let event = image.initial_events@[upto - 1];
        if spec_node_slot(image, event.target) == Some(slot as usize) {
            spec_futures(image, slot, upto - 1).push(event)
        } else {
            spec_futures(image, slot, upto - 1)
        }
    }
}

/// The first `upto` initial packets that LP `slot` holds, in initial-packet order.
pub open spec fn spec_held(image: SimulationImage, slot: int, upto: int) -> Seq<PacketDescriptor>
    decreases upto,
{
    if upto <= 0 {
        Seq::empty()
    } else {
        let packet = image.initial_packets@[upto - 1];
        if spec_holds(image, slot, packet) {
            spec_held(image, slot, upto - 1).push(packet)
        } else {
            spec_held(image, slot, upto - 1)
        }
    }
}

/// The identities of the first `upto` initial packets that LP `slot` keeps alive.
pub open spec fn spec_pinned(image: SimulationImage, slot: int, upto: int) -> Seq<PayloadId>
    decreases upto,
{
    if upto <= 0 {
        Seq::empty()
    } else {
        let packet = image.initial_packets@[upto - 1];
        if spec_pins(image, slot, packet) {
            spec_pinned(image, slot, upto - 1).push(packet.id)
        } else {
            spec_pinned(image, slot, upto - 1)
        }
    }
}

/// The plan of LP `slot`.
pub open spec fn spec_lp_plan_at(image: SimulationImage, slot: int, plan: LpPlan) -> bool {
    &&& plan.lp_slot == slot
    &&& plan.node == image.nodes@[slot]
    &&& plan.futures@ == spec_futures(image, slot, image.initial_events@.len() as int)
    &&& plan.packets@ == spec_held(image, slot, image.initial_packets@.len() as int)
    &&& plan.pinned@ == spec_pinned(image, slot, image.initial_packets@.len() as int)
}

/// `plans` hold one plan per LP, in LP order.
pub open spec fn spec_lp_plans(image: SimulationImage, plans: Seq<LpPlan>) -> bool {
    &&& plans.len() == image.nodes@.len()
    &&& forall|slot: int| 0 <= slot < plans.len() ==> spec_lp_plan_at(image, slot, #[trigger] plans[slot])
}


// ---------------------------------------------------------------------------------------------
// Checks.
// ---------------------------------------------------------------------------------------------

fn has_descriptor(image: &SimulationImage, id: PayloadId) -> (found: bool)
    ensures
        found == spec_has_descriptor(*image, id),
{
    let mut i: usize = 0;
    while i < image.initial_packets.len()
        invariant
            i <= image.initial_packets@.len(),
            forall|j: int| 0 <= j < i ==> (#[trigger] image.initial_packets@[j]).id != id,
        decreases image.initial_packets@.len() - i,
    {
        if image.initial_packets[i].id == id {
            return true;
        }
        i += 1;
    }
    false
}

fn first_repeated_payload(image: &SimulationImage) -> (repeat: Option<PayloadId>)
    ensures
        repeat == spec_first_repeat(image.initial_packets@, 0),
{
    let packets = &image.initial_packets;
    let mut i: usize = 0;
    while i < packets.len()
        invariant
            i <= packets@.len(),
            packets@ == image.initial_packets@,
            spec_first_repeat(packets@, 0) == spec_first_repeat(packets@, i as int),
        decreases packets@.len() - i,
    {
        let mut j: usize = 0;
        while j < i
            invariant
                j <= i < packets@.len(),
                packets@ == image.initial_packets@,
                spec_first_repeat(packets@, 0) == spec_first_repeat(packets@, i as int),
                forall|k: int| 0 <= k < j ==> (#[trigger] packets@[k]).id != packets@[i as int].id,
            decreases i - j,
        {
            if packets[j].id == packets[i].id {
                assert(spec_repeats_payload(packets@, i as int));
                return Some(packets[i].id);
            }
            j += 1;
        }
        assert(!spec_repeats_payload(packets@, i as int));
        i += 1;
    }
    None
}

fn first_event_error(image: &SimulationImage) -> (error: Option<ExecutionError>)
    ensures
        error == spec_event_error(*image, 0),
{
    let events = &image.initial_events;
    let mut i: usize = 0;
    while i < events.len()
        invariant
            i <= events@.len(),
            events@ == image.initial_events@,
            spec_event_error(*image, 0) == spec_event_error(*image, i as int),
        decreases events@.len() - i,
    {
        let event = events[i];
        let mut j: usize = 0;
        while j < i
            invariant
                j <= i < events@.len(),
                events@ == image.initial_events@,
                event == events@[i as int],
                spec_event_error(*image, 0) == spec_event_error(*image, i as int),
                forall|k: int| 0 <= k < j ==> (#[trigger] events@[k]).key != event.key,
            decreases i - j,
        {
            if events[j].key == event.key {
                assert(spec_repeats_key(events@, i as int));
                return Some(ExecutionError::DuplicateEventKey(event.key));
            }
            j += 1;
        }
        assert(!spec_repeats_key(events@, i as int));
        if node_slot(image, event.target).is_none() {
            return Some(ExecutionError::UnknownNode(event.target));
        }
        if !has_descriptor(image, event.payload) {
            return Some(ExecutionError::UnknownPacket(event.payload));
        }
        i += 1;
    }
    None
}

fn copy_queue(queue: &std::collections::VecDeque<PayloadId>) -> (list: Vec<PayloadId>)
    ensures
        list@ == queue@,
{
    let mut list: Vec<PayloadId> = Vec::new();
    let mut k: usize = 0;
    while k < queue.len()
        invariant
            k <= queue@.len(),
            list@ == queue@.take(k as int),
        decreases queue@.len() - k,
    {
        list.push(queue[k]);
        k += 1;
        assert(list@ =~= queue@.take(k as int));
    }
    assert(queue@.take(queue@.len() as int) =~= queue@);
    list
}

/// The packets LP `slot` holds waiting and in service.
fn state_lists(image: &SimulationImage, slot: usize) -> (lists: (Vec<PayloadId>, Vec<PayloadId>))
    requires
        slot < image.nodes@.len(),
        spec_state_valid(*image, slot as int),
    ensures
        lists.0@ == spec_queued_at(*image, slot as int),
        lists.1@ == spec_serving_at(*image, slot as int),
{
    let node = image.nodes[slot];
    match node.kind {
        NodeKind::Host => {
            let state = &image.host_states[node.state_slot as usize];
            let queued = copy_queue(&state.queue);
            let mut serving: Vec<PayloadId> = Vec::new();
            match state.in_service {
                Some(payload) => {
                    serving.push(payload);
                    assert(serving@ =~= seq![payload]);
                },
                None => {},
            }
            (queued, serving)
        },
        NodeKind::Switch => {
            let queues = &image.switch_states[node.state_slot as usize].queues;
            let mut queued: Vec<PayloadId> = Vec::new();
            let mut serving: Vec<PayloadId> = Vec::new();
            let mut q: usize = 0;
            while q < queues.len()
                invariant
                    q <= queues@.len(),
                    queued@ == spec_switch_queued(queues@, q as int),
                    serving@ == spec_switch_serving(queues@, q as int),
                decreases queues@.len() - q,
            {
                let mut waiting = copy_queue(&queues[q].queue);
                queued.append(&mut waiting);
                match queues[q].in_service {
                    Some(payload) => serving.push(payload),
                    None => {},
                }
                q += 1;
            }
            (queued, serving)
        },
    }
}

fn first_unknown(image: &SimulationImage, list: &Vec<PayloadId>) -> (unknown: Option<PayloadId>)
    ensures
        unknown == spec_first_unknown(*image, list@, 0),
{
    let mut k: usize = 0;
    while k < list.len()
        invariant
            k <= list@.len(),
            spec_first_unknown(*image, list@, 0) == spec_first_unknown(*image, list@, k as int),
        decreases list@.len() - k,
    {
        if !has_descriptor(image, list[k]) {
            return Some(list[k]);
        }
        k += 1;
    }
    None
}

fn first_state_error(image: &SimulationImage) -> (error: Option<ExecutionError>)
    ensures
        error == spec_state_error(*image, 0),
{
    let mut slot: usize = 0;
    while slot < image.nodes.len()
        invariant
            slot <= image.nodes@.len(),
            spec_state_error(*image, 0) == spec_state_error(*image, slot as int),
        decreases image.nodes@.len() - slot,
    {
        let node = image.nodes[slot];
        let valid = match node.kind {
            NodeKind::Host => (node.state_slot as usize) < image.host_states.len(),
            NodeKind::Switch => (node.state_slot as usize) < image.switch_states.len(),
        };
        if !valid {
            return Some(
                ExecutionError::InvalidStateSlot {
                    node: node.id,
                    kind: node.kind,
                    state_slot: node.state_slot,
                },
            );
        }
        let (mut queued, mut serving) = state_lists(image, slot);
        queued.append(&mut serving);
        match first_unknown(image, &queued) {
            Some(payload) => {
                return Some(ExecutionError::UnknownPacket(payload));
            },
            None => {},
        }
        slot += 1;
    }
    None
}

// ---------------------------------------------------------------------------------------------
// Holdings.
// ---------------------------------------------------------------------------------------------

/// Every LP names a state record that exists.
pub open spec fn spec_states_valid(image: SimulationImage) -> bool {
    forall|slot: int| 0 <= slot < image.nodes@.len() ==> #[trigger] spec_state_valid(image, slot)
}

proof fn lemma_states_valid(image: SimulationImage, slot: int)
    requires
        0 <= slot,
        spec_state_error(image, slot) is None,
    ensures
        forall|t: int| slot <= t < image.nodes@.len() ==> #[trigger] spec_state_valid(image, t),
    decreases image.nodes@.len() - slot,
{
    if slot < image.nodes@.len() {
        lemma_states_valid(image, slot + 1);
    }
}

fn names_slot(candidate: Option<usize>, slot: usize) -> (named: bool)
    ensures
        named == (candidate == Some(slot)),
{
    match candidate {
        Some(found) => found == slot,
        None => false,
    }
}

fn list_contains(list: &Vec<PayloadId>, id: PayloadId) -> (found: bool)
    ensures
        found == list@.contains(id),
{
    let mut k: usize = 0;
    while k < list.len()
        invariant
            k <= list@.len(),
            forall|j: int| 0 <= j < k ==> list@[j] != id,
        decreases list@.len() - k,
    {
        if list[k] == id {
            assert(list@[k as int] == id);
            return true;
        }
        k += 1;
    }
    false
}

fn event_holds(image: &SimulationImage, slot: usize, id: PayloadId) -> (held: bool)
    ensures
        held == spec_event_holds(*image, slot as int, id),
{
    let events = &image.initial_events;
    let mut i: usize = 0;
    while i < events.len()
        invariant
            i <= events@.len(),
            events@ == image.initial_events@,
            forall|j: int|
                0 <= j < i ==> !((#[trigger] events@[j]).payload == id && spec_node_slot(
                    *image,
                    events@[j].target,
                ) == Some(slot)),
        decreases events@.len() - i,
    {
        if events[i].payload == id && names_slot(node_slot(image, events[i].target), slot) {
            return true;
        }
        i += 1;
    }
    false
}

fn base_holds(image: &SimulationImage, slot: usize, id: PayloadId) -> (held: bool)
    requires
        slot < image.nodes@.len(),
        spec_state_valid(*image, slot as int),
    ensures
        held == spec_base_holds(*image, slot as int, id),
{
    let (queued, serving) = state_lists(image, slot);
    event_holds(image, slot, id) || list_contains(&queued, id) || list_contains(&serving, id)
}

fn first_holder(image: &SimulationImage, id: PayloadId) -> (holder: Option<usize>)
    requires
        spec_states_valid(*image),
    ensures
        holder == spec_first_holder(*image, id, 0),
{
    let mut slot: usize = 0;
    while slot < image.nodes.len()
        invariant
            slot <= image.nodes@.len(),
            spec_states_valid(*image),
            spec_first_holder(*image, id, 0) == spec_first_holder(*image, id, slot as int),
        decreases image.nodes@.len() - slot,
    {
        assert(spec_state_valid(*image, slot as int));
        if base_holds(image, slot, id) {
            return Some(slot);
        }
        slot += 1;
    }
    None
}

fn source_slot(image: &SimulationImage, packet: PacketDescriptor) -> (slot: Option<usize>)
    ensures
        slot == spec_source_slot(*image, packet),
{
    if packet.flow.0 < image.flows.len() as u64 {
        let flow = &image.flows[packet.flow.0 as usize];
        if flow.id == packet.flow {
            return node_slot(image, flow.source);
        }
    }
    None
}

fn arrives(image: &SimulationImage, id: PayloadId) -> (arrival: bool)
    ensures
        arrival == spec_arrives(*image, id),
{
    let events = &image.initial_events;
    let mut i: usize = 0;
    while i < events.len()
        invariant
            i <= events@.len(),
            events@ == image.initial_events@,
            forall|j: int|
                0 <= j < i ==> !((#[trigger] events@[j]).payload == id && (events@[j].kind is PacketArrival
                    || events@[j].kind is RemoteArrival)),
        decreases events@.len() - i,
    {
        let arrival = match events[i].kind {
            EventKind::PacketArrival => true,
            EventKind::RemoteArrival => true,
            _ => false,
        };
        if events[i].payload == id && arrival {
            return true;
        }
        i += 1;
    }
    false
}

fn completes(image: &SimulationImage, id: PayloadId) -> (completion: bool)
    ensures
        completion == spec_completes(*image, id),
{
    let events = &image.initial_events;
    let mut i: usize = 0;
    while i < events.len()
        invariant
            i <= events@.len(),
            events@ == image.initial_events@,
            forall|j: int|
                0 <= j < i ==> !((#[trigger] events@[j]).payload == id && events@[j].kind is TxComplete),
        decreases events@.len() - i,
    {
        let completion = match events[i].kind {
            EventKind::TxComplete => true,
            _ => false,
        };
        if events[i].payload == id && completion {
            return true;
        }
        i += 1;
    }
    false
}

/// Whether some LP holds `id` waiting, and whether some LP holds it in service.
fn held_by_states(image: &SimulationImage, id: PayloadId) -> (held: (bool, bool))
    requires
        spec_states_valid(*image),
    ensures
        held.0 == spec_queued_anywhere(*image, id),
        held.1 == spec_serving_anywhere(*image, id),
{
    let mut queued_somewhere = false;
    let mut serving_somewhere = false;
    let mut slot: usize = 0;
    while slot < image.nodes.len()
        invariant
            slot <= image.nodes@.len(),
            spec_states_valid(*image),
            queued_somewhere == exists|t: int|
                0 <= t < slot && #[trigger] spec_queued_at(*image, t).contains(id),
            serving_somewhere == exists|t: int|
                0 <= t < slot && #[trigger] spec_serving_at(*image, t).contains(id),
        decreases image.nodes@.len() - slot,
    {
        assert(spec_state_valid(*image, slot as int));
        let (queued, serving) = state_lists(image, slot);
        if list_contains(&queued, id) {
            queued_somewhere = true;
        }
        if list_contains(&serving, id) {
            serving_somewhere = true;
        }
        slot += 1;
    }
    (queued_somewhere, serving_somewhere)
}

/// For each initial packet: its first holder, its flow source's LP and whether it is orphaned;
/// or the refusal of the first packet that no LP holds and whose flow or source is unknown.
fn packet_facts(image: &SimulationImage) -> (facts: Result<
    (Vec<Option<usize>>, Vec<Option<usize>>, Vec<bool>),
    ExecutionError,
>)
    requires
        spec_states_valid(*image),
    ensures
        match facts {
            Err(error) => spec_descriptor_error(*image, 0) == Some(error),
            Ok((holders, sources, orphans)) => {
                &&& spec_descriptor_error(*image, 0) is None
                &&& holders@.len() == image.initial_packets@.len()
                &&& sources@.len() == image.initial_packets@.len()
                &&& orphans@.len() == image.initial_packets@.len()
                &&& forall|i: int|
                    0 <= i < image.initial_packets@.len() ==> {
                        &&& #[trigger] holders@[i] == spec_first_holder(
                            *image,
                            image.initial_packets@[i].id,
                            0,
                        )
                        &&& sources@[i] == spec_source_slot(*image, image.initial_packets@[i])
                        &&& orphans@[i] == spec_orphan(*image, image.initial_packets@[i].id)
                    }
            },
        },
{
    let packets = &image.initial_packets;
    let mut holders: Vec<Option<usize>> = Vec::new();
    let mut sources: Vec<Option<usize>> = Vec::new();
    let mut orphans: Vec<bool> = Vec::new();
    let mut i: usize = 0;
    while i < packets.len()
        invariant
            i <= packets@.len(),
            packets@ == image.initial_packets@,
            spec_states_valid(*image),
            spec_descriptor_error(*image, 0) == spec_descriptor_error(*image, i as int),
            holders@.len() == i,
            sources@.len() == i,
            orphans@.len() == i,
            forall|j: int|
                0 <= j < i ==> {
                    &&& #[trigger] holders@[j] == spec_first_holder(*image, packets@[j].id, 0)
                    &&& sources@[j] == spec_source_slot(*image, packets@[j])
                    &&& orphans@[j] == spec_orphan(*image, packets@[j].id)
                },
        decreases packets@.len() - i,
    {
        let packet = packets[i];
        let holder = first_holder(image, packet.id);
        let source = source_slot(image, packet);
        if holder.is_none() {
            let known = packet.flow.0 < image.flows.len() as u64 && image.flows[packet.flow.0
                as usize].id == packet.flow;
            if !known {
                return Err(ExecutionError::UnknownFlow(packet.flow));
            }
            if source.is_none() {
                return Err(ExecutionError::UnknownNode(image.flows[packet.flow.0 as usize].source));
            }
        }
        let (queued, serving) = held_by_states(image, packet.id);
        let orphan = !arrives(image, packet.id) && !queued && (!serving || completes(
            image,
            packet.id,
        ));
        let ghost before = (holders@, sources@, orphans@);
        holders.push(holder);
        sources.push(source);
        orphans.push(orphan);
        assert forall|j: int| 0 <= j < i + 1 implies {
            &&& #[trigger] holders@[j] == spec_first_holder(*image, packets@[j].id, 0)
            &&& sources@[j] == spec_source_slot(*image, packets@[j])
            &&& orphans@[j] == spec_orphan(*image, packets@[j].id)
        } by {
            if j < i {
                assert(holders@[j] == before.0[j]);
                assert(sources@[j] == before.1[j]);
                assert(orphans@[j] == before.2[j]);
            }
        }
        i += 1;
    }
    Ok((holders, sources, orphans))
}

/// The initial events LP `slot` executes, in image order.
fn futures_of(image: &SimulationImage, slot: usize) -> (futures: Vec<Event>)
    ensures
        futures@ == spec_futures(*image, slot as int, image.initial_events@.len() as int),
{
    let events = &image.initial_events;
    let mut futures: Vec<Event> = Vec::new();
    let mut i: usize = 0;
    while i < events.len()
        invariant
            i <= events@.len(),
            events@ == image.initial_events@,
            futures@ == spec_futures(*image, slot as int, i as int),
        decreases events@.len() - i,
    {
        if names_slot(node_slot(image, events[i].target), slot) {
            futures.push(events[i]);
        }
        i += 1;
    }
    futures
}

/// The packets LP `slot` holds and the packets it keeps alive, in initial-packet order.
fn holdings_of(
    image: &SimulationImage,
    slot: usize,
    holders: &Vec<Option<usize>>,
    sources: &Vec<Option<usize>>,
    orphans: &Vec<bool>,
) -> (holdings: (Vec<PacketDescriptor>, Vec<PayloadId>))
    requires
        slot < image.nodes@.len(),
        spec_states_valid(*image),
        holders@.len() == image.initial_packets@.len(),
        sources@.len() == image.initial_packets@.len(),
        orphans@.len() == image.initial_packets@.len(),
        forall|i: int|
            0 <= i < image.initial_packets@.len() ==> {
                &&& #[trigger] holders@[i] == spec_first_holder(
                    *image,
                    image.initial_packets@[i].id,
                    0,
                )
                &&& sources@[i] == spec_source_slot(*image, image.initial_packets@[i])
                &&& orphans@[i] == spec_orphan(*image, image.initial_packets@[i].id)
            },
    ensures
        holdings.0@ == spec_held(*image, slot as int, image.initial_packets@.len() as int),
        holdings.1@ == spec_pinned(*image, slot as int, image.initial_packets@.len() as int),
{
    let packets = &image.initial_packets;
    let mut held: Vec<PacketDescriptor> = Vec::new();
    let mut pinned: Vec<PayloadId> = Vec::new();
    let mut i: usize = 0;
    assert(spec_state_valid(*image, slot as int));
    while i < packets.len()
        invariant
            i <= packets@.len(),
            packets@ == image.initial_packets@,
            slot < image.nodes@.len(),
            spec_state_valid(*image, slot as int),
            holders@.len() == packets@.len(),
            sources@.len() == packets@.len(),
            orphans@.len() == packets@.len(),
            forall|j: int|
                0 <= j < packets@.len() ==> {
                    &&& #[trigger] holders@[j] == spec_first_holder(*image, packets@[j].id, 0)
                    &&& sources@[j] == spec_source_slot(*image, packets@[j])
                    &&& orphans@[j] == spec_orphan(*image, packets@[j].id)
                },
            held@ == spec_held(*image, slot as int, i as int),
            pinned@ == spec_pinned(*image, slot as int, i as int),
        decreases packets@.len() - i,
    {
        let packet = packets[i];
        let unheld = holders[i].is_none();
        let placed_here = unheld && names_slot(sources[i], slot);
        assert(holders@[i as int] == spec_first_holder(*image, packets@[i as int].id, 0));
        if base_holds(image, slot, packet.id) || placed_here {
            held.push(packet);
        }
        if orphans[i] && (names_slot(holders[i], slot) || placed_here) {
            pinned.push(packet.id);
        }
        i += 1;
    }
    (held, pinned)
}

/// Splits an image into its logical processes: each LP's initial events, the packets it starts
/// out holding and the orphaned packets it keeps alive. A packet that no event, queue or
/// transmission places goes to the LP of its flow source. Refuses, in this order, a repeated
/// payload identity, the first bad initial event, the first bad LP state and the first unplaced
/// packet with an unknown flow or flow source.
pub fn build_lp_plan(image: &SimulationImage) -> (result: Result<Vec<LpPlan>, ExecutionError>)
    ensures
        spec_lp_error(*image) matches Some(error) ==> result == Err::<Vec<LpPlan>, ExecutionError>(
            error,
        ),
        spec_lp_error(*image) is None ==> (result matches Ok(plans) && spec_lp_plans(
            *image,
            plans@,
        )),
{
    match first_repeated_payload(image) {
        Some(id) => {
            return Err(ExecutionError::DuplicatePayload(id));
        },
        None => {},
    }
    match first_event_error(image) {
        Some(error) => {
            return Err(error);
        },
        None => {},
    }
    match first_state_error(image) {
        Some(error) => {
            return Err(error);
        },
        None => {},
    }
    proof {
        lemma_states_valid(*image, 0);
    }
    let (holders, sources, orphans) = match packet_facts(image) {
        Ok(facts) => facts,
        Err(error) => {
            return Err(error);
        },
    };
    let mut plans: Vec<LpPlan> = Vec::new();
    let mut slot: usize = 0;
    while slot < image.nodes.len()
        invariant
            slot <= image.nodes@.len(),
            spec_states_valid(*image),
            holders@.len() == image.initial_packets@.len(),
            sources@.len() == image.initial_packets@.len(),
            orphans@.len() == image.initial_packets@.len(),
            forall|i: int|
                0 <= i < image.initial_packets@.len() ==> {
                    &&& #[trigger] holders@[i] == spec_first_holder(
                        *image,
                        image.initial_packets@[i].id,
                        0,
                    )
                    &&& sources@[i] == spec_source_slot(*image, image.initial_packets@[i])
                    &&& orphans@[i] == spec_orphan(*image, image.initial_packets@[i].id)
                },
            plans@.len() == slot,
            forall|s: int| 0 <= s < slot ==> spec_lp_plan_at(*image, s, #[trigger] plans@[s]),
        decreases image.nodes@.len() - slot,
    {
        let futures = futures_of(image, slot);
        let (packets, pinned) = holdings_of(image, slot, &holders, &sources, &orphans);
        plans.push(LpPlan { lp_slot: slot, node: image.nodes[slot], futures, packets, pinned });
        slot += 1;
    }
    Ok(plans)
}

// ---------------------------------------------------------------------------------------------
// No packet is lost.
// ---------------------------------------------------------------------------------------------

proof fn lemma_first_holder_holds(image: SimulationImage, id: PayloadId, slot: int)
    requires
        0 <= slot,
        image.nodes@.len() <= usize::MAX,
    ensures
        spec_first_holder(image, id, slot) matches Some(found) ==> slot <= found < image.nodes@.len()
            && spec_base_holds(image, found as int, id),
    decreases image.nodes@.len() - slot,
{
    if slot < image.nodes@.len() && !spec_base_holds(image, slot, id) {
        lemma_first_holder_holds(image, id, slot + 1);
    }
}

proof fn lemma_placed(image: SimulationImage, k: int, i: int)
    requires
        0 <= k <= i < image.initial_packets@.len(),
        spec_descriptor_error(image, k) is None,
    ensures
        spec_first_holder(image, image.initial_packets@[i].id, 0) is Some || spec_source_slot(
            image,
            image.initial_packets@[i],
        ) is Some,
    decreases i - k,
{
    if k < i {
        lemma_placed(image, k + 1, i);
    }
}

proof fn lemma_held_contains(image: SimulationImage, slot: int, i: int, upto: int)
    requires
        0 <= i < upto <= image.initial_packets@.len(),
        spec_holds(image, slot, image.initial_packets@[i]),
    ensures
        spec_held(image, slot, upto).contains(image.initial_packets@[i]),
    decreases upto,
{
    let packet = image.initial_packets@[i];
    if i < upto - 1 {
        lemma_held_contains(image, slot, i, upto - 1);
        let prev = spec_held(image, slot, upto - 1);
        let j = choose|j: int| 0 <= j < prev.len() && prev[j] == packet;
        if spec_holds(image, slot, image.initial_packets@[upto - 1]) {
            assert(spec_held(image, slot, upto)[j] == packet);
        }
    } else {
        let held = spec_held(image, slot, upto);
        assert(held[held.len() - 1] == packet);
    }
}

/// Every initial packet of an image that splits into LPs is held by some LP: through an
/// event, a queue or a transmission, or else by the LP of its flow source.
pub proof fn law_every_packet_is_held(image: SimulationImage, i: int)
    requires
        spec_lp_error(image) is None,
        0 <= i < image.initial_packets@.len(),
        image.nodes@.len() <= usize::MAX,
    ensures
        exists|slot: int|
            0 <= slot < image.nodes@.len() && #[trigger] spec_held(
                image,
                slot,
                image.initial_packets@.len() as int,
            ).contains(image.initial_packets@[i]),
{
    let packet = image.initial_packets@[i];
    let count = image.initial_packets@.len() as int;
    lemma_placed(image, 0, i);
    lemma_first_holder_holds(image, packet.id, 0);
    match spec_first_holder(image, packet.id, 0) {
        Some(found) => {
            lemma_held_contains(image, found as int, i, count);
        },
        None => {
            let source = spec_source_slot(image, packet)->0;
            lemma_held_contains(image, source as int, i, count);
        },
    }
}

proof fn lemma_futures_members(image: SimulationImage, slot: int, upto: int, event: Event)
    requires
        0 <= upto <= image.initial_events@.len(),
    ensures
        spec_futures(image, slot, upto).contains(event) <==> exists|i: int|
            0 <= i < upto && #[trigger] image.initial_events@[i] == event && spec_node_slot(
                image,
                event.target,
            ) == Some(slot as usize),
    decreases upto,
{
    if upto > 0 {
        lemma_futures_members(image, slot, upto - 1, event);
        let prev = spec_futures(image, slot, upto - 1);
        let last = image.initial_events@[upto - 1];
        if spec_node_slot(image, last.target) == Some(slot as usize) {
            let now = prev.push(last);
            if now.contains(event) && !prev.contains(event) {
                let j = choose|j: int| 0 <= j < now.len() && now[j] == event;
                assert(j == prev.len());
                assert(image.initial_events@[upto - 1] == event);
            }
            if prev.contains(event) {
                let j = choose|j: int| 0 <= j < prev.len() && prev[j] == event;
                assert(now[j] == event);
            }
            if image.initial_events@[upto - 1] == event {
                assert(now[prev.len() as int] == event);
            }
        }
    }
}

/// Each initial event of an image that splits into LPs is executed by exactly one LP: the LP
/// of its target.
pub proof fn law_each_event_has_one_lp(image: SimulationImage, i: int, slot: int)
    requires
        spec_lp_error(image) is None,
        0 <= i < image.initial_events@.len(),
        0 <= slot < image.nodes@.len(),
    ensures
        spec_node_slot(image, image.initial_events@[i].target) is Some,
        spec_futures(image, slot, image.initial_events@.len() as int).contains(
            image.initial_events@[i],
        ) <==> spec_node_slot(image, image.initial_events@[i].target) == Some(slot as usize),
{
    lemma_event_targets_known(image, 0, i);
    lemma_futures_members(image, slot, image.initial_events@.len() as int, image.initial_events@[i]);
}

proof fn lemma_event_targets_known(image: SimulationImage, k: int, i: int)
    requires
        0 <= k <= i < image.initial_events@.len(),
        spec_event_error(image, k) is None,
    ensures
        spec_node_slot(image, image.initial_events@[i].target) is Some,
    decreases i - k,
{
    if k < i {
        lemma_event_targets_known(image, k + 1, i);
    }
}

} // verus!
