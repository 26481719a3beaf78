//! Host-only sizing of the default production GPU execution plan.
//!
//! The sizing follows the capacity derivation of the device planners but retains only small
//! host-side capacity vectors: it never materializes an event plane.

use vstd::prelude::*;

use crate::device_capacity::sat;
use crate::event::{EventKind, FlowId, LinkId, NodeId};
use crate::image::{
    FlowGeneratorKind, FlowGeneratorState, GeneratorStatus, GeneratorTermination, HostState,
    PacketDescriptor, PacketKind, SimulationImage, TcpGenerator,
};
use crate::rate_work::{rate_device_work, rate_work_defined, spec_rate_device_work};
use crate::time::TimeError;

verus! {

pub const EVENT_WORDS: usize = 14;
pub const NODE_WORDS: usize = 11;
pub const GENERATOR_WORDS: usize = 43;
pub const FLOW_WORDS: usize = 6;
pub const LINK_WORDS: usize = 4;
pub const ARENA_META_WORDS: usize = 4;
pub const SUMMARY_COUNTERS: usize = 12;
pub const LP_STATE_WORDS: usize = 6;
pub const OBSERVATION_META_WORDS: usize = 12;
pub const INBOUND_META_WORDS: usize = 2;
pub const LP_STREAM_META_WORDS: usize = 4;
pub const OUTBOUND_META_WORDS: usize = 2;
pub const OUTBOUND_ENTRY_WORDS: usize = 2;
pub const CHANNEL_BATCH_WORDS: usize = 4;
pub const ACTIVE_STREAM_ENTRY_WORDS: usize = 5;
pub const CONTROL_WORDS: usize = 19;
pub const PARAM_WORDS: usize = 35;
pub const WORD_BYTES: usize = 8;
/// Planes every image has; TCP images add one packed auxiliary plane.
pub const BASE_PLANE_COUNT: usize = 28;

/// Exact size of one `u64` device plane in the default production GPU plan.
#[derive(Clone, Copy, Debug, PartialEq, Eq)]
pub struct DevicePlaneSizing {
    pub index: usize,
    pub name: &'static str,
    pub words: usize,
    pub bytes: usize,
}

/// Exact event-arena sizing fields reported by production GPU runs.
#[derive(Clone, Copy, Debug, Default, PartialEq, Eq, Structural)]
pub struct DeviceEventArenaSizing {
    pub legacy_heap_event_slots: usize,
    pub fallback_heap_event_slots: usize,
    pub channel_stream_event_slots: usize,
    pub service_stream_event_slots: usize,
    pub generator_stream_event_slots: usize,
    pub heap_arena_bytes: usize,
    pub stream_arena_bytes: usize,
    pub legacy_heap_arena_bytes: usize,
}

impl DeviceEventArenaSizing {
    /// Heap plus stream arena bytes, saturating at `usize::MAX`.
    pub fn total_event_arena_bytes(self) -> (total: usize)
        ensures
            total == sat(self.heap_arena_bytes + self.stream_arena_bytes),
    {
        self.heap_arena_bytes.saturating_add(self.stream_arena_bytes)
    }
}

/// Complete host-only sizing report for the default production GPU device planes.
///
/// Open-loop images have the established 28 planes. TCP images add one packed auxiliary plane
/// for receiver ranges, segment ledgers and full-observation transition state.
#[derive(Clone, Debug, PartialEq, Eq)]
pub struct DeviceSizingReport {
    pub planes: Vec<DevicePlaneSizing>,
    pub total_device_bytes: usize,
    pub event_arenas: DeviceEventArenaSizing,
}

/// A count or size of the plan whose exact value does not fit in `usize`.
#[derive(Clone, Copy, Debug, PartialEq, Eq, Structural)]
pub enum SizingQuantity {
    TcpFallbackFelSlots,
    FallbackFelSlots,
    LegacyFelSlots,
    QueueSlots,
    RemoteStagingSlots,
    ChannelStreamSlots,
    ServiceStreamSlots,
    GeneratorStreamSlots,
    StreamRecordSlots,
    ServiceStreamCount,
    GeneratorStreamCount,
    LpStreamList,
    ActiveStreamList,
    StreamMetadata,
    LpStreamMetadata,
    OutboundMetadata,
    OutboundChannelEntries,
    ChannelBatches,
    StreamState,
    RoutePlane,
    NodeStatePlane,
    GeneratorPlane,
    FlowPlane,
    LinkPlane,
    FelMetadataPlane,
    FelRecordPlane,
    QueueMetadataPlane,
    QueueRecordPlane,
    InServicePlane,
    OutboxPlane,
    SummaryPlane,
    LpStatePlane,
    RemoteMetadataPlane,
    RemoteStagingPlane,
    ObservationMetadataPlane,
    InboundMetadataPlane,
    StreamRecordPlane,
    SchedulerMetadata,
    SchedulerClassState,
    SchedulerClassArena,
    SchedulerQueueTag,
    SchedulerQueueTagArena,
    DevicePlaneBytes,
    TcpRecordSlots,
    TcpReceiverRows,
    TcpRangeMetadata,
    TcpReceiveRanges,
    TcpLedgerRecords,
    TcpTransitionMetadata,
    TcpStatePlane,
    TcpStatePlaneBytes,
    TotalDeviceBytes,
    EventArenaBytes,
    StreamStateBytes,
    StreamRecordWords,
    StreamRecordBytes,
    StreamArenaBytes,
}

/// Why an exact device plan size cannot be derived.
#[derive(Clone, Copy, Debug, PartialEq, Eq, Structural)]
pub enum SizingFault {
    /// A constant generator's duration endpoint does not fit in `u64`.
    DurationEndpointOverflow,
    /// The named count or size does not fit in `usize`.
    Overflow(SizingQuantity),
    /// A paced source's first-hop serialization time is undefined.
    SourceSerialization(TimeError),
    /// A route hop crosses no declared stream channel.
    MissingStreamClassification { link: LinkId, target: NodeId },
    /// Two stream channels join the same source and target logical processes.
    DuplicateChannelPair,
}

/// Failure to derive an exact device plan size.
#[derive(Clone, Copy, Debug, PartialEq, Eq, Structural)]
pub struct DeviceSizingError(pub SizingFault);


fn overflow(quantity: SizingQuantity) -> (error: DeviceSizingError)
    ensures
        error == DeviceSizingError(SizingFault::Overflow(quantity)),
{
    DeviceSizingError(SizingFault::Overflow(quantity))
}

/// `left * right`, or the overflow of `quantity`.
pub fn checked_product(left: usize, right: usize, quantity: SizingQuantity) -> (product: Result<
    usize,
    DeviceSizingError,
>)
    ensures
        match product {
            Ok(value) => value == left * right,
            Err(error) => left * right > usize::MAX && error == overflow_of(quantity),
        },
        product == spec_checked_product(left as nat, right as nat, quantity),
{
    match left.checked_mul(right) {
        Some(value) => Ok(value),
        None => Err(overflow(quantity)),
    }
}

/// `left * right` as a `usize`, or the overflow of `quantity`.
pub open spec fn spec_checked_product(left: nat, right: nat, quantity: SizingQuantity) -> Result<
    usize,
    DeviceSizingError,
> {
    if left * right > usize::MAX {
        Err(overflow_of(quantity))
    } else {
        Ok((left * right) as usize)
    }
}

pub open spec fn overflow_of(quantity: SizingQuantity) -> DeviceSizingError {
    DeviceSizingError(SizingFault::Overflow(quantity))
}

/// The exact sum of a sequence of sizes.
pub open spec fn seq_sum(values: Seq<usize>) -> nat
    decreases values.len(),
{
    if values.len() == 0 {
        0
    } else {
        (seq_sum(values.drop_last()) + values.last()) as nat
    }
}

/// The sum of `values`, or the overflow of `quantity`.
pub fn checked_sum(values: &[usize], quantity: SizingQuantity) -> (sum: Result<
    usize,
    DeviceSizingError,
>)
    ensures
        match sum {
            Ok(value) => value == seq_sum(values@),
            Err(error) => seq_sum(values@) > usize::MAX && error == overflow_of(quantity),
        },
{
    let mut total: usize = 0;
    let mut index: usize = 0;
    while index < values.len()
        invariant
            index <= values.len(),
            total == seq_sum(values@.take(index as int)),
        decreases values.len() - index,
    {
        assert(values@.take(index as int + 1).drop_last() == values@.take(index as int));
        match total.checked_add(values[index]) {
            Some(next) => total = next,
            None => {
                proof {
                    lemma_seq_sum_prefix_le(values@, index as int + 1);
                }
                return Err(overflow(quantity));
            },
        }
        index += 1;
    }
    assert(values@.take(values.len() as int) == values@);
    Ok(total)
}

/// A prefix never sums to more than the whole sequence.
pub proof fn lemma_seq_sum_prefix_le(values: Seq<usize>, count: int)
    requires
        0 <= count <= values.len(),
    ensures
        seq_sum(values.take(count)) <= seq_sum(values),
    decreases values.len() - count,
{
    if count < values.len() {
        lemma_seq_sum_prefix_le(values, count + 1);
        assert(values.take(count + 1).drop_last() == values.take(count));
    } else {
        assert(values.take(count) == values);
    }
}

pub open spec fn spec_event_arena_bytes(record_slots: usize, node_count: usize) -> nat {
    ((record_slots * EVENT_WORDS + node_count * ARENA_META_WORDS) * WORD_BYTES) as nat
}

/// Bytes of one event arena: its records plus per-LP metadata, or the arena overflow.
pub fn event_arena_bytes(record_slots: usize, node_count: usize) -> (bytes: Result<
    usize,
    DeviceSizingError,
>)
    ensures
        match bytes {
            Ok(value) => value == spec_event_arena_bytes(record_slots, node_count),
            Err(error) => spec_event_arena_bytes(record_slots, node_count) > usize::MAX && error
                == overflow_of(SizingQuantity::EventArenaBytes),
        },
{
    let records = record_slots.checked_mul(EVENT_WORDS);
    let meta = node_count.checked_mul(ARENA_META_WORDS);
    let words = match (records, meta) {
        (Some(records), Some(meta)) => records.checked_add(meta),
        _ => None,
    };
    match words {
        Some(words) => match words.checked_mul(WORD_BYTES) {
            Some(bytes) => Ok(bytes),
            None => Err(overflow(SizingQuantity::EventArenaBytes)),
        },
        None => Err(overflow(SizingQuantity::EventArenaBytes)),
    }
}

// ---------------------------------------------------------------------------------------------
// Generators of every host, in host order.

pub open spec fn hosts_generators(hosts: Seq<HostState>) -> Seq<FlowGeneratorState>
    decreases hosts.len(),
{
    if hosts.len() == 0 {
        Seq::empty()
    } else {
        hosts_generators(hosts.drop_last()) + hosts.last().generators@
    }
}

pub open spec fn image_generators(image: SimulationImage) -> Seq<FlowGeneratorState> {
    hosts_generators(image.host_states@)
}

pub(crate) fn collect_generators(image: &SimulationImage) -> (generators: Vec<FlowGeneratorState>)
    ensures
        generators@ == image_generators(*image),
{
    let mut generators: Vec<FlowGeneratorState> = Vec::new();
    let mut host: usize = 0;
    while host < image.host_states.len()
        invariant
            host <= image.host_states.len(),
            generators@ == hosts_generators(image.host_states@.take(host as int)),
        decreases image.host_states.len() - host,
    {
        let state = &image.host_states[host];
        let mut index: usize = 0;
        while index < state.generators.len()
            invariant
                index <= state.generators.len(),
                generators@ == hosts_generators(image.host_states@.take(host as int))
                    + state.generators@.take(index as int),
            decreases state.generators.len() - index,
        {
            generators.push(state.generators[index]);
            assert(state.generators@.take(index as int + 1) == state.generators@.take(
                index as int,
            ).push(state.generators[index as int]));
            index += 1;
        }
        assert(image.host_states@.take(host as int + 1).drop_last() == image.host_states@.take(
            host as int,
        ));
        assert(state.generators@.take(index as int) == state.generators@);
        host += 1;
    }
    assert(image.host_states@.take(host as int) == image.host_states@);
    generators
}

// ---------------------------------------------------------------------------------------------
// Per-flow packet budgets.

pub open spec fn zero_counts(count: nat) -> Seq<usize> {
    Seq::new(count, |i: int| 0usize)
}

/// Initial packets of each flow, or only those the filter admits.
pub open spec fn packets_per_flow(
    flow_count: nat,
    packets: Seq<PacketDescriptor>,
    feedback_only: bool,
) -> Seq<usize>
    decreases packets.len(),
{
    if packets.len() == 0 {
        zero_counts(flow_count)
    } else {
        let counts = packets_per_flow(flow_count, packets.drop_last(), feedback_only);
        let packet = packets.last();
        let flow = packet.flow.0 as int;
        if !feedback_only || packet.kind is Feedback || packet.kind is TcpAck
            || packet.kind is Pfc {
            counts.update(flow, counts[flow].saturating_add(1))
        } else {
            counts
        }
    }
}

/// Initial TCP ACK packets of `flow`.
pub open spec fn preloaded_acks(packets: Seq<PacketDescriptor>, flow: FlowId) -> nat
    decreases packets.len(),
{
    if packets.len() == 0 {
        0
    } else {
        preloaded_acks(packets.drop_last(), flow) + if packets.last().flow == flow
            && packets.last().kind is TcpAck {
            1nat
        } else {
            0nat
        }
    }
}

pub open spec fn sat_u64(value: int) -> u64 {
    if value > u64::MAX { u64::MAX } else if value < 0 { 0 } else { value as u64 }
}

pub open spec fn ceil_div(numerator: nat, denominator: nat) -> nat {
    ((numerator + denominator - 1) as nat) / denominator
}

pub open spec fn tcp_is_live(generator: FlowGeneratorState, tcp: TcpGenerator) -> bool {
    !(generator.next_emission.status is Finished || generator.next_emission.status is Stopped)
        && tcp.highest_ack < tcp.total_bytes
}

/// Reserved data attempts of a TCP sender: twice its remaining nominal segments plus its
/// preloaded ACK triggers plus two, since closed-loop sends can fragment and retransmit.
pub open spec fn spec_tcp_data_attempt_bound(
    image: SimulationImage,
    generator: FlowGeneratorState,
    tcp: TcpGenerator,
) -> usize {
    if !tcp_is_live(generator, tcp) {
        0
    } else {
        let remaining = (tcp.total_bytes - tcp.highest_ack) as nat;
        let mss = if tcp.mss_bytes == 0 { 1nat } else { tcp.mss_bytes as nat };
        let nominal = ceil_div(remaining, mss);
        let acks = preloaded_acks(image.initial_packets@, generator.flow);
        sat(sat_u64(sat_u64(sat_u64((nominal * 2) as int) + acks) + 2) as int)
    }
}

fn count_preloaded_acks(packets: &Vec<PacketDescriptor>, flow: FlowId) -> (count: u64)
    ensures
        count == preloaded_acks(packets@, flow),
{
    let mut count: u64 = 0;
    let mut index: usize = 0;
    while index < packets.len()
        invariant
            index <= packets.len(),
            count == preloaded_acks(packets@.take(index as int), flow),
            count <= index,
        decreases packets.len() - index,
    {
        assert(packets@.take(index as int + 1).drop_last() == packets@.take(index as int));
        let packet = packets[index];
        if packet.flow == flow && matches!(packet.kind, PacketKind::TcpAck(_)) {
            count = count + 1;
        }
        index += 1;
    }
    assert(packets@.take(index as int) == packets@);
    count
}

fn saturating_mul_u64(left: u64, right: u64) -> (product: u64)
    ensures
        product == sat_u64(left * right),
{
    match left.checked_mul(right) {
        Some(value) => value,
        None => u64::MAX,
    }
}

fn saturating_mul_usize(left: usize, right: usize) -> (product: usize)
    ensures
        product == sat(left * right),
{
    match left.checked_mul(right) {
        Some(value) => value,
        None => usize::MAX,
    }
}

fn u64_to_usize_saturating(value: u64) -> (small: usize)
    ensures
        small == sat(value as int),
{
    if value as u128 > usize::MAX as u128 {
        usize::MAX
    } else {
        value as usize
    }
}

/// The data-attempt reservation of one TCP sender.
pub fn tcp_data_attempt_bound(
    image: &SimulationImage,
    generator: &FlowGeneratorState,
    tcp: TcpGenerator,
) -> (bound: usize)
    ensures
        bound == spec_tcp_data_attempt_bound(*image, *generator, tcp),
{
    let finished = match generator.next_emission.status {
        GeneratorStatus::Finished | GeneratorStatus::Stopped => true,
        _ => false,
    };
    if finished || tcp.highest_ack >= tcp.total_bytes {
        return 0;
    }
    let remaining = tcp.total_bytes - tcp.highest_ack;
    let mss = if tcp.mss_bytes == 0 { 1 } else { tcp.mss_bytes };
    proof {
        let r = remaining as int;
        let m = mss as int;
        assert(r % m != 0 ==> r / m < u64::MAX) by (nonlinear_arith)
            requires
                m > 0,
                r <= u64::MAX,
        {
            assert(r == m * (r / m) + r % m);
            if r % m != 0 && r / m >= u64::MAX {
                assert(m * (r / m) >= r / m);
            }
        }
    }
    let nominal = remaining / mss + if remaining % mss == 0 { 0 } else { 1 };
    proof {
        let r = remaining as nat;
        let m = mss as nat;
        assert(nominal as nat == ceil_div(r, m)) by (nonlinear_arith)
            requires
                m > 0,
                nominal == r / m + if r % m == 0 { 0nat } else { 1nat },
        {
            assert(r == m * (r / m) + r % m);
        }
    }
    let acks = count_preloaded_acks(&image.initial_packets, generator.flow);
    let doubled = saturating_mul_u64(nominal, 2);
    u64_to_usize_saturating(doubled.saturating_add(acks).saturating_add(2))
}

pub open spec fn nat_min(a: nat, b: nat) -> nat {
    if a <= b { a } else { b }
}

/// Packets a scheduled constant generator owes before its termination, or `None` when its
/// duration endpoint does not fit in `u64`.
pub open spec fn constant_termination_count(
    generator: FlowGeneratorState,
    constant: crate::image::ConstantGenerator,
) -> Option<nat> {
    let departure = generator.next_emission.departure_time_ns;
    match constant.termination {
        GeneratorTermination::Bytes(bytes) => Some(
            if generator.bytes_emitted >= bytes {
                0
            } else {
                ceil_div((bytes - generator.bytes_emitted) as nat, constant.packet_size_bytes as nat)
            },
        ),
        GeneratorTermination::DurationNs(duration) => if constant.first_departure_ns + duration
            > u64::MAX {
            None
        } else {
            let end = constant.first_departure_ns + duration;
            Some(
                if departure >= end {
                    0
                } else {
                    (1 + ((end - 1 - departure) as nat) / (constant.interval_ns as nat)) as nat
                },
            )
        },
    }
}

/// Emissions of a constant generator from its next departure through the stop time.
pub open spec fn constant_stop_count(
    stop_time_ns: u64,
    generator: FlowGeneratorState,
    constant: crate::image::ConstantGenerator,
) -> nat {
    let departure = generator.next_emission.departure_time_ns;
    if departure > stop_time_ns {
        0
    } else {
        (1 + ((stop_time_ns - departure) as nat) / (constant.interval_ns as nat)) as nat
    }
}

/// The divisions of a scheduled constant generator's budget are defined and its stop count
/// fits in `u64`.
pub open spec fn constant_count_defined(
    stop_time_ns: u64,
    generator: FlowGeneratorState,
    constant: crate::image::ConstantGenerator,
) -> bool {
    let departure = generator.next_emission.departure_time_ns;
    let stop_defined = departure <= stop_time_ns ==> constant.interval_ns > 0 && (stop_time_ns
        - departure) / (constant.interval_ns as int) < u64::MAX;
    generator.next_emission.status is Scheduled ==> match constant.termination {
        GeneratorTermination::Bytes(bytes) => {
            &&& generator.bytes_emitted < bytes ==> constant.packet_size_bytes > 0
            &&& stop_defined
        },
        GeneratorTermination::DurationNs(duration) => constant.first_departure_ns + duration
            <= u64::MAX ==> {
            &&& departure < constant.first_departure_ns + duration ==> constant.interval_ns > 0
            &&& stop_defined
        },
    }
}

/// An initial pacing timer already stands for the generator's next emission.
pub open spec fn owns_timer_token(image: SimulationImage, generator: FlowGeneratorState) -> bool {
    exists|index: int|
        0 <= index < image.initial_events.len() && {
            let event = #[trigger] image.initial_events[index];
            &&& event.kind == EventKind::PacingTimer
            &&& event.target == image.flows[generator.flow.0 as int].source
            &&& event.payload == generator.next_emission.payload
            &&& event.key.time_ns == generator.next_emission.departure_time_ns
        }
}

/// One generator's upcoming packets added to its flow's budget.
pub open spec fn generator_count_step(
    image: SimulationImage,
    counts: Seq<usize>,
    generator: FlowGeneratorState,
) -> Option<Seq<usize>> {
    let flow = generator.flow.0 as int;
    match generator.kind {
        FlowGeneratorKind::Constant(constant) => if !(generator.next_emission.status is Scheduled) {
            Some(counts)
        } else {
            match constant_termination_count(generator, constant) {
                None => None,
                Some(termination) => {
                    let stop = constant_stop_count(image.stop_time_ns, generator, constant);
                    let future = (nat_min(termination, stop) as u64) as usize;
                    Some(counts.update(flow, counts[flow].saturating_add(future.saturating_sub(1))))
                },
            }
        },
        FlowGeneratorKind::Tcp(tcp) => if !tcp_is_live(generator, tcp) {
            Some(counts)
        } else {
            let bound = spec_tcp_data_attempt_bound(image, generator, tcp);
            Some(counts.update(flow, counts[flow].saturating_add(sat(bound * 2))))
        },
        FlowGeneratorKind::Rate(rate) => {
            let work = spec_rate_device_work(image.stop_time_ns, generator, rate);
            let base = if owns_timer_token(image, generator) {
                counts[flow].saturating_sub(1)
            } else {
                counts[flow]
            };
            Some(counts.update(flow, base.saturating_add(work.packets)))
        },
    }
}

pub open spec fn generator_packet_counts(
    image: SimulationImage,
    generators: Seq<FlowGeneratorState>,
) -> Option<Seq<usize>>
    decreases generators.len(),
{
    if generators.len() == 0 {
        Some(packets_per_flow(image.flows.len() as nat, image.initial_packets@, false))
    } else {
        match generator_packet_counts(image, generators.drop_last()) {
            None => None,
            Some(counts) => generator_count_step(image, counts, generators.last()),
        }
    }
}

/// Upper bound on the packets of each flow during the run: its initial packets plus every
/// packet its generator can still emit, or `None` when a duration endpoint overflows.
pub open spec fn spec_flow_packet_counts(image: SimulationImage) -> Option<Seq<usize>> {
    generator_packet_counts(image, image_generators(image))
}

/// Every initial packet and generator names a declared flow.
pub open spec fn flow_references_valid(image: SimulationImage) -> bool {
    &&& forall|index: int|
        0 <= index < image.initial_packets.len() ==> (#[trigger] image.initial_packets[index]).flow.0
            < image.flows.len()
    &&& forall|index: int|
        0 <= index < image_generators(image).len() ==> (#[trigger] image_generators(
            image,
        )[index]).flow.0 < image.flows.len()
    &&& forall|index: int|
        0 <= index < image.flows.len() ==> (#[trigger] image.flows[index]).source.0
            < image.nodes.len() && image.flows[index].target.0 < image.nodes.len()
}

/// The upcoming budget of generator `index` is a defined computation.
pub open spec fn generator_budget_defined_at(image: SimulationImage, index: int) -> bool {
    let generator = image_generators(image)[index];
    match generator.kind {
        FlowGeneratorKind::Constant(constant) => constant_count_defined(
            image.stop_time_ns,
            generator,
            constant,
        ),
        FlowGeneratorKind::Rate(rate) => rate_work_defined(image.stop_time_ns, generator, rate),
        FlowGeneratorKind::Tcp(_) => true,
    }
}

/// Every generator whose budget is reached, before a duration endpoint overflows, has a defined
/// budget computation.
pub open spec fn generator_budgets_defined(image: SimulationImage) -> bool {
    forall|index: int|
        0 <= index < image_generators(image).len() && generator_packet_counts(
            image,
            #[trigger] image_generators(image).take(index),
        ) is Some ==> generator_budget_defined_at(image, index)
}

/// Every rate generator's upcoming work is a defined computation.
pub open spec fn rate_budgets_defined(image: SimulationImage) -> bool {
    forall|index: int|
        0 <= index < image_generators(image).len() ==> match (#[trigger] image_generators(
            image,
        )[index]).kind {
            FlowGeneratorKind::Rate(rate) => rate_work_defined(
                image.stop_time_ns,
                image_generators(image)[index],
                rate,
            ),
            _ => true,
        }
}

fn initial_packet_counts(image: &SimulationImage, feedback_only: bool) -> (counts: Vec<usize>)
    requires
        flow_references_valid(*image),
    ensures
        counts@ == packets_per_flow(image.flows.len() as nat, image.initial_packets@, feedback_only),
        counts.len() == image.flows.len(),
{
    let flow_count = image.flows.len();
    let mut counts: Vec<usize> = Vec::new();
    while counts.len() < flow_count
        invariant
            counts.len() <= flow_count,
            forall|i: int| 0 <= i < counts.len() ==> counts[i] == 0,
        decreases flow_count - counts.len(),
    {
        counts.push(0);
    }
    assert(counts@ == zero_counts(flow_count as nat));
    let mut index: usize = 0;
    while index < image.initial_packets.len()
        invariant
            flow_references_valid(*image),
            index <= image.initial_packets.len(),
            flow_count == image.flows.len(),
            counts@ == packets_per_flow(
                flow_count as nat,
                image.initial_packets@.take(index as int),
                feedback_only,
            ),
            counts.len() == flow_count,
        decreases image.initial_packets.len() - index,
    {
        assert(image.initial_packets@.take(index as int + 1).drop_last()
            == image.initial_packets@.take(index as int));
        let packet = image.initial_packets[index];
        let flow = packet.flow.0 as usize;
        if !feedback_only || packet.kind.is_feedback() {
            let next = counts[flow].saturating_add(1);
            counts.set(flow, next);
        }
        index += 1;
    }
    assert(image.initial_packets@.take(index as int) == image.initial_packets@);
    counts
}

fn owns_timer_token_exec(image: &SimulationImage, generator: &FlowGeneratorState) -> (owned: bool)
    requires
        generator.flow.0 < image.flows.len(),
    ensures
        owned == owns_timer_token(*image, *generator),
{
    let source = image.flows[generator.flow.0 as usize].source;
    let mut index: usize = 0;
    while index < image.initial_events.len()
        invariant
            index <= image.initial_events.len(),
            source == image.flows[generator.flow.0 as int].source,
            forall|earlier: int|
                0 <= earlier < index ==> {
                    let event = #[trigger] image.initial_events[earlier];
                    !(event.kind == EventKind::PacingTimer && event.target == source
                        && event.payload == generator.next_emission.payload && event.key.time_ns
                        == generator.next_emission.departure_time_ns)
                },
        decreases image.initial_events.len() - index,
    {
        let event = image.initial_events[index];
        if event.kind == EventKind::PacingTimer && event.target == source && event.payload
            == generator.next_emission.payload && event.key.time_ns
            == generator.next_emission.departure_time_ns {
            return true;
        }
        index += 1;
    }
    false
}

/// The constant generator's future packets, or the endpoint overflow.
fn constant_future_packets(
    image: &SimulationImage,
    generator: &FlowGeneratorState,
    constant: crate::image::ConstantGenerator,
) -> (future: Option<usize>)
    requires
        generator.next_emission.status is Scheduled,
        constant_count_defined(image.stop_time_ns, *generator, constant),
    ensures
        match constant_termination_count(*generator, constant) {
            None => future is None,
            Some(termination) => future == Some(
                (nat_min(
                    termination,
                    constant_stop_count(image.stop_time_ns, *generator, constant),
                ) as u64) as usize,
            ),
        },
{
    let departure = generator.next_emission.departure_time_ns;
    let termination_count: u64 = match constant.termination {
        GeneratorTermination::Bytes(bytes) => {
            if generator.bytes_emitted >= bytes {
                0
            } else {
                let owed = bytes - generator.bytes_emitted;
                let size = constant.packet_size_bytes;
                proof {
                    let r = owed as int;
                    let m = size as int;
                    assert(r % m != 0 ==> r / m < u64::MAX) by (nonlinear_arith)
                        requires
                            m > 0,
                            r <= u64::MAX,
                    {
                        assert(r == m * (r / m) + r % m);
                        if r % m != 0 && r / m >= u64::MAX {
                            assert(m * (r / m) >= r / m);
                        }
                    }
                }
                let count = owed / size + if owed % size == 0 { 0 } else { 1 };
                proof {
                    let r = owed as nat;
                    let m = size as nat;
                    assert(count as nat == ceil_div(r, m)) by (nonlinear_arith)
                        requires
                            m > 0,
                            count == r / m + if r % m == 0 { 0nat } else { 1nat },
                    {
                        assert(r == m * (r / m) + r % m);
                    }
                }
                count
            }
        },
        GeneratorTermination::DurationNs(duration) => {
            let end = match constant.first_departure_ns.checked_add(duration) {
                Some(end) => end,
                None => return None,
            };
            if departure >= end {
                0
            } else {
                proof {
                    assert((end - 1 - departure) / (constant.interval_ns as int) <= end - 1
                        - departure) by (nonlinear_arith)
                        requires
                            constant.interval_ns > 0,
                            end - 1 - departure >= 0,
                    ;
                }
                1 + (end - 1 - departure) / constant.interval_ns
            }
        },
    };
    let stop_count: u64 = if departure > image.stop_time_ns {
        0
    } else {
        1 + (image.stop_time_ns - departure) / constant.interval_ns
    };
    let least = if termination_count <= stop_count { termination_count } else { stop_count };
    Some(least as usize)
}

/// The per-flow packet budgets, or the overflow of a duration endpoint.
fn flow_packet_counts(image: &SimulationImage, generators: &Vec<FlowGeneratorState>) -> (counts:
    Result<Vec<usize>, DeviceSizingError>)
    requires
        generators@ == image_generators(*image),
        flow_references_valid(*image),
        generator_budgets_defined(*image),
    ensures
        match counts {
            Ok(counts) => spec_flow_packet_counts(*image) == Some(counts@) && counts.len()
                == image.flows.len(),
            Err(error) => spec_flow_packet_counts(*image) is None && error == DeviceSizingError(
                SizingFault::DurationEndpointOverflow,
            ),
        },
{
    let mut counts = initial_packet_counts(image, false);
    let mut index: usize = 0;
    while index < generators.len()
        invariant
            generators@ == image_generators(*image),
            flow_references_valid(*image),
            generator_budgets_defined(*image),
            index <= generators.len(),
            counts.len() == image.flows.len(),
            generator_packet_counts(*image, generators@.take(index as int)) == Some(counts@),
        decreases generators.len() - index,
    {
        assert(generators@.take(index as int + 1).drop_last() == generators@.take(index as int));
        let generator = generators[index];
        assert(generator == image_generators(*image)[index as int]);
        assert(generator_budget_defined_at(*image, index as int));
        let flow = generator.flow.0 as usize;
        match generator.kind {
            FlowGeneratorKind::Constant(constant) => {
                if generator.next_emission.status == GeneratorStatus::Scheduled {
                    match constant_future_packets(image, &generator, constant) {
                        Some(future) => {
                            let next = counts[flow].saturating_add(future.saturating_sub(1));
                            counts.set(flow, next);
                        },
                        None => {
                            proof {
                                lemma_packet_counts_stay_none(
                                    *image,
                                    generators@,
                                    index as int + 1,
                                );
                            }
                            return Err(DeviceSizingError(SizingFault::DurationEndpointOverflow));
                        },
                    }
                }
            },
            FlowGeneratorKind::Tcp(tcp) => {
                let finished = match generator.next_emission.status {
                    GeneratorStatus::Finished | GeneratorStatus::Stopped => true,
                    _ => false,
                };
                if !finished && tcp.highest_ack < tcp.total_bytes {
                    let bound = tcp_data_attempt_bound(image, &generator, tcp);
                    let next = counts[flow].saturating_add(saturating_mul_usize(bound, 2));
                    counts.set(flow, next);
                }
            },
            FlowGeneratorKind::Rate(rate) => {
                let work = rate_device_work(image, &generator, rate);
                if owns_timer_token_exec(image, &generator) {
                    let reduced = counts[flow].saturating_sub(1);
                    counts.set(flow, reduced);
                }
                let next = counts[flow].saturating_add(work.packets);
                counts.set(flow, next);
            },
        }
        index += 1;
    }
    assert(generators@.take(index as int) == generators@);
    Ok(counts)
}

/// Feedback packets of each flow: initial feedback packets plus one ACK per reserved TCP data
/// attempt, never more than the flow's whole budget.
pub open spec fn feedback_counts_over(
    image: SimulationImage,
    packet_counts: Seq<usize>,
    generators: Seq<FlowGeneratorState>,
) -> Seq<usize>
    decreases generators.len(),
{
    if generators.len() == 0 {
        packets_per_flow(image.flows.len() as nat, image.initial_packets@, true)
    } else {
        let counts = feedback_counts_over(image, packet_counts, generators.drop_last());
        let generator = generators.last();
        let flow = generator.flow.0 as int;
        match generator.kind {
            FlowGeneratorKind::Tcp(tcp) => {
                let attempts = spec_tcp_data_attempt_bound(image, generator, tcp);
                let raised = counts[flow].saturating_add(attempts);
                counts.update(
                    flow,
                    if raised <= packet_counts[flow] { raised } else { packet_counts[flow] },
                )
            },
            _ => counts,
        }
    }
}

pub open spec fn spec_feedback_packet_counts(
    image: SimulationImage,
    packet_counts: Seq<usize>,
) -> Seq<usize> {
    feedback_counts_over(image, packet_counts, image_generators(image))
}

fn feedback_packet_counts(
    image: &SimulationImage,
    generators: &Vec<FlowGeneratorState>,
    packet_counts: &Vec<usize>,
) -> (counts: Vec<usize>)
    requires
        generators@ == image_generators(*image),
        flow_references_valid(*image),
        packet_counts.len() == image.flows.len(),
    ensures
        counts@ == spec_feedback_packet_counts(*image, packet_counts@),
        counts.len() == image.flows.len(),
{
    let mut counts = initial_packet_counts(image, true);
    let mut index: usize = 0;
    while index < generators.len()
        invariant
            generators@ == image_generators(*image),
            flow_references_valid(*image),
            packet_counts.len() == image.flows.len(),
            index <= generators.len(),
            counts.len() == image.flows.len(),
            counts@ == feedback_counts_over(*image, packet_counts@, generators@.take(index as int)),
        decreases generators.len() - index,
    {
        assert(generators@.take(index as int + 1).drop_last() == generators@.take(index as int));
        let generator = generators[index];
        assert(generator == image_generators(*image)[index as int]);
        if let FlowGeneratorKind::Tcp(tcp) = generator.kind {
            let flow = generator.flow.0 as usize;
            let attempts = tcp_data_attempt_bound(image, &generator, tcp);
            let raised = counts[flow].saturating_add(attempts);
            let bounded = if raised <= packet_counts[flow] { raised } else { packet_counts[flow] };
            counts.set(flow, bounded);
        }
        index += 1;
    }
    assert(generators@.take(index as int) == generators@);
    counts
}

// ---------------------------------------------------------------------------------------------
// Smallest packets of each flow.

pub open spec fn u64_min(a: u64, b: u64) -> u64 {
    if a <= b { a } else { b }
}

/// Smallest data packet a flow's generators produce, `u64::MAX` when none does.
pub open spec fn generator_min_size(generators: Seq<FlowGeneratorState>, flow: FlowId, data: bool) -> u64
    decreases generators.len(),
{
    if generators.len() == 0 {
        u64::MAX
    } else {
        let rest = generator_min_size(generators.drop_last(), flow, data);
        let generator = generators.last();
        if generator.flow != flow {
            rest
        } else {
            match generator.kind {
                FlowGeneratorKind::Constant(constant) => if data {
                    u64_min(rest, constant.packet_size_bytes)
                } else {
                    rest
                },
                FlowGeneratorKind::Tcp(tcp) => if data {
                    u64_min(rest, tcp.mss_bytes)
                } else {
                    u64_min(rest, tcp.ack_size_bytes)
                },
                FlowGeneratorKind::Rate(rate) => if data {
                    u64_min(rest, rate.packet_size_bytes)
                } else {
                    rest
                },
            }
        }
    }
}

/// Smallest initial data (or feedback) packet of a flow, `u64::MAX` when there is none.
pub open spec fn packet_min_size(packets: Seq<PacketDescriptor>, flow: FlowId, data: bool) -> u64
    decreases packets.len(),
{
    if packets.len() == 0 {
        u64::MAX
    } else {
        let rest = packet_min_size(packets.drop_last(), flow, data);
        let packet = packets.last();
        let counted = if data {
            packet.kind is Data || packet.kind is TcpData
        } else {
            packet.kind is Feedback || packet.kind is TcpAck || packet.kind is Pfc
        };
        if packet.flow == flow && counted {
            u64_min(rest, packet.size_bytes)
        } else {
            rest
        }
    }
}

/// Smallest data (or feedback) packet of a flow; a flow with no sized packet counts as one byte.
pub open spec fn spec_min_packet_size(image: SimulationImage, flow: FlowId, data: bool) -> u64 {
    let least = u64_min(
        generator_min_size(image_generators(image), flow, data),
        packet_min_size(image.initial_packets@, flow, data),
    );
    if least == u64::MAX { 1 } else { least }
}

pub open spec fn spec_min_packet_sizes(image: SimulationImage, data: bool) -> Seq<u64> {
    Seq::new(image.flows.len() as nat, |flow: int| spec_min_packet_size(image, FlowId(flow as u64), data))
}

fn min_packet_sizes(image: &SimulationImage, generators: &Vec<FlowGeneratorState>, data: bool) -> (sizes:
    Vec<u64>)
    requires
        generators@ == image_generators(*image),
    ensures
        sizes@ == spec_min_packet_sizes(*image, data),
{
    let mut sizes: Vec<u64> = Vec::new();
    let mut flow: usize = 0;
    while flow < image.flows.len()
        invariant
            generators@ == image_generators(*image),
            flow <= image.flows.len(),
            sizes.len() == flow,
            forall|f: int|
                0 <= f < flow ==> sizes[f] == spec_min_packet_size(*image, FlowId(f as u64), data),
        decreases image.flows.len() - flow,
    {
        let id = FlowId(flow as u64);
        let mut least = u64::MAX;
        let mut index: usize = 0;
        while index < generators.len()
            invariant
                index <= generators.len(),
                least == generator_min_size(generators@.take(index as int), id, data),
            decreases generators.len() - index,
        {
            assert(generators@.take(index as int + 1).drop_last() == generators@.take(index as int));
            let generator = generators[index];
            if generator.flow == id {
                let size = match generator.kind {
                    FlowGeneratorKind::Constant(constant) => if data {
                        constant.packet_size_bytes
                    } else {
                        u64::MAX
                    },
                    FlowGeneratorKind::Tcp(tcp) => if data {
                        tcp.mss_bytes
                    } else {
                        tcp.ack_size_bytes
                    },
                    FlowGeneratorKind::Rate(rate) => if data {
                        rate.packet_size_bytes
                    } else {
                        u64::MAX
                    },
                };
                if size < least {
                    least = size;
                }
            }
            index += 1;
        }
        assert(generators@.take(index as int) == generators@);
        let mut packet_least = u64::MAX;
        let mut index: usize = 0;
        while index < image.initial_packets.len()
            invariant
                index <= image.initial_packets.len(),
                packet_least == packet_min_size(image.initial_packets@.take(index as int), id, data),
            decreases image.initial_packets.len() - index,
        {
            assert(image.initial_packets@.take(index as int + 1).drop_last()
                == image.initial_packets@.take(index as int));
            let packet = image.initial_packets[index];
            let counted = if data {
                packet.kind.is_data()
            } else {
                packet.kind.is_feedback()
            };
            if packet.flow == id && counted && packet.size_bytes < packet_least {
                packet_least = packet.size_bytes;
            }
            index += 1;
        }
        assert(image.initial_packets@.take(index as int) == image.initial_packets@);
        let combined = if packet_least < least { packet_least } else { least };
        sizes.push(if combined == u64::MAX { 1 } else { combined });
        flow += 1;
    }
    sizes
}

// ---------------------------------------------------------------------------------------------
// Source queue bounds.

/// Every node, link, channel, route hop and initial event names a declared element, and each
/// node's state slot exists for its kind.
pub open spec fn topology_valid(image: SimulationImage) -> bool {
    &&& forall|index: int|
        0 <= index < image.nodes.len() ==> {
            let node = #[trigger] image.nodes[index];
            &&& node.id.0 < image.nodes.len()
            &&& node.kind is Host ==> node.state_slot < image.host_states.len()
            &&& node.kind is Switch ==> node.state_slot < image.switch_states.len()
        }
    &&& forall|flow: int, hop: int|
        0 <= flow < image.flows.len() && 0 <= hop < image.flows[flow].route.len() ==> (
        #[trigger] image.flows[flow].route[hop]).0 < image.links.len()
    &&& forall|flow: int, hop: int|
        0 <= flow < image.flows.len() && 0 <= hop < image.flows[flow].reverse_route.len() ==> (
        #[trigger] image.flows[flow].reverse_route[hop]).0 < image.links.len()
    &&& forall|index: int|
        0 <= index < image.links.len() ==> (#[trigger] image.links[index]).source.0
            < image.nodes.len()
    &&& forall|index: int|
        0 <= index < image.channels.len() ==> {
            let channel = #[trigger] image.channels[index];
            &&& channel.source.0 < image.nodes.len()
            &&& channel.target.0 < image.nodes.len()
            &&& channel.link.0 < image.links.len()
        }
    &&& forall|index: int|
        0 <= index < image.initial_events.len() ==> (#[trigger] image.initial_events[index]).target.0
            < image.nodes.len()
}

pub open spec fn is_data_kind(kind: PacketKind) -> bool {
    kind is Data || kind is TcpData
}

/// Flows whose source is `node`.
pub open spec fn flows_from(flows: Seq<crate::image::FlowDescriptor>, node: NodeId) -> nat
    decreases flows.len(),
{
    if flows.len() == 0 {
        0
    } else {
        flows_from(flows.drop_last(), node) + if flows.last().source == node {
            1nat
        } else {
            0nat
        }
    }
}

/// Initial data packets of a flow.
pub open spec fn data_packets_of(packets: Seq<PacketDescriptor>, flow: FlowId) -> nat
    decreases packets.len(),
{
    if packets.len() == 0 {
        0
    } else {
        data_packets_of(packets.drop_last(), flow) + if packets.last().flow == flow
            && is_data_kind(packets.last().kind) {
            1nat
        } else {
            0nat
        }
    }
}

/// Payload of a flow's first initial data packet.
pub open spec fn first_data_payload(packets: Seq<PacketDescriptor>, flow: FlowId) -> Option<
    crate::event::PayloadId,
>
    decreases packets.len(),
{
    if packets.len() == 0 {
        None
    } else {
        let rest = first_data_payload(packets.drop_last(), flow);
        if rest is Some {
            rest
        } else if packets.last().flow == flow && is_data_kind(packets.last().kind) {
            Some(packets.last().id)
        } else {
            None
        }
    }
}

/// Size of a flow's last initial data packet, zero when it has none.
pub open spec fn last_data_size(packets: Seq<PacketDescriptor>, flow: FlowId) -> u64
    decreases packets.len(),
{
    if packets.len() == 0 {
        0
    } else if packets.last().flow == flow && is_data_kind(packets.last().kind) {
        packets.last().size_bytes
    } else {
        last_data_size(packets.drop_last(), flow)
    }
}

/// Flow of the last initial data packet carrying `payload`.
pub open spec fn last_data_flow(packets: Seq<PacketDescriptor>, payload: crate::event::PayloadId) -> Option<
    FlowId,
>
    decreases packets.len(),
{
    if packets.len() == 0 {
        None
    } else if packets.last().id == payload && is_data_kind(packets.last().kind) {
        Some(packets.last().flow)
    } else {
        last_data_flow(packets.drop_last(), payload)
    }
}

/// The event is the next-emission arrival of the single generator at the flow's host source.
pub open spec fn arrival_matches(image: SimulationImage, flow: int, event: crate::event::Event) -> bool {
    let descriptor = image.flows[flow];
    let source = image.nodes[descriptor.source.0 as int];
    &&& source.kind is Host
    &&& image.host_states[source.state_slot as int].generators.len() == 1
    &&& {
        let generator = image.host_states[source.state_slot as int].generators[0];
        &&& event.target == descriptor.source
        &&& event.kind == EventKind::PacketArrival
        &&& event.payload == generator.next_emission.payload
        &&& event.key.time_ns == generator.next_emission.departure_time_ns
    }
}

/// Per-flow count of initial arrivals that carry the flow's next generator emission.
pub open spec fn arrival_counts(image: SimulationImage, events: Seq<crate::event::Event>) -> Seq<
    usize,
>
    decreases events.len(),
{
    if events.len() == 0 {
        zero_counts(image.flows.len() as nat)
    } else {
        let counts = arrival_counts(image, events.drop_last());
        let event = events.last();
        match last_data_flow(image.initial_packets@, event.payload) {
            Some(flow) => if arrival_matches(image, flow.0 as int, event) {
                counts.update(flow.0 as int, counts[flow.0 as int].saturating_add(1))
            } else {
                counts
            },
            None => counts,
        }
    }
}

pub open spec fn matching_arrivals(image: SimulationImage, flow: int) -> usize {
    arrival_counts(image, image.initial_events@)[flow]
}

/// Queue bound of one flow at its source: a lone, fresh, constant generator whose interval is
/// no shorter than its first-hop serialization keeps at most one packet queued.
pub open spec fn spec_source_queue_bound(image: SimulationImage, counts: Seq<usize>, flow: int) -> Result<
    usize,
    TimeError,
> {
    let packets = counts[flow];
    let descriptor = image.flows[flow];
    let source = image.nodes[descriptor.source.0 as int];
    if packets == 0 || flows_from(image.flows@, descriptor.source) != 1 || !(source.kind is Host) {
        Ok(packets)
    } else {
        let state = image.host_states[source.state_slot as int];
        if state.generators.len() != 1 {
            Ok(packets)
        } else {
            let generator = state.generators[0];
            let fresh = {
                &&& generator.flow.0 == flow
                &&& generator.next_emission.status is Scheduled
                &&& generator.packets_emitted == 0
                &&& generator.bytes_emitted == 0
                &&& state.queue@.len() == 0
                &&& state.in_service is None
                &&& !state.tx_ready_pending
                &&& data_packets_of(image.initial_packets@, FlowId(flow as u64)) == 1
                &&& first_data_payload(image.initial_packets@, FlowId(flow as u64)) == Some(
                    generator.next_emission.payload,
                )
                &&& matching_arrivals(image, flow) == 1
            };
            if generator.kind is Tcp || !fresh || descriptor.route.len() == 0
                || descriptor.route[0] != state.egress_link {
                Ok(packets)
            } else {
                match generator.kind {
                    FlowGeneratorKind::Constant(constant) => if last_data_size(
                        image.initial_packets@,
                        FlowId(flow as u64),
                    ) != constant.packet_size_bytes {
                        Ok(packets)
                    } else {
                        let link = image.links[descriptor.route[0].0 as int];
                        match crate::time::spec_serialization_time_ns(
                            constant.packet_size_bytes,
                            link.rate_bps,
                        ) {
                            Err(error) => Err(error),
                            Ok(serialization) => {
                                let paced = if constant.interval_ns >= serialization {
                                    if packets <= 1 { packets } else { 1 }
                                } else {
                                    packets
                                };
                                Ok(
                                    if paced == packets {
                                        packets
                                    } else {
                                        let raised = state.queue@.len() as usize;
                                        let raised = raised.saturating_add(paced);
                                        if raised <= packets { raised } else { packets }
                                    },
                                )
                            },
                        }
                    },
                    _ => Ok(packets),
                }
            }
        }
    }
}

pub open spec fn source_queue_bounds_upto(image: SimulationImage, counts: Seq<usize>, count: nat) -> Result<
    Seq<usize>,
    TimeError,
>
    decreases count,
{
    if count == 0 {
        Ok(Seq::empty())
    } else {
        match source_queue_bounds_upto(image, counts, (count - 1) as nat) {
            Err(error) => Err(error),
            Ok(bounds) => match spec_source_queue_bound(image, counts, count - 1) {
                Err(error) => Err(error),
                Ok(bound) => Ok(bounds.push(bound)),
            },
        }
    }
}

pub open spec fn spec_source_queue_bounds(image: SimulationImage, counts: Seq<usize>) -> Result<
    Seq<usize>,
    TimeError,
> {
    source_queue_bounds_upto(image, counts, image.flows.len() as nat)
}

fn count_flows_from(image: &SimulationImage, node: NodeId) -> (count: usize)
    ensures
        count == flows_from(image.flows@, node),
{
    let mut count: usize = 0;
    let mut index: usize = 0;
    while index < image.flows.len()
        invariant
            index <= image.flows.len(),
            count == flows_from(image.flows@.take(index as int), node),
            count <= index,
        decreases image.flows.len() - index,
    {
        assert(image.flows@.take(index as int + 1).drop_last() == image.flows@.take(index as int));
        if image.flows[index].source == node {
            count += 1;
        }
        index += 1;
    }
    assert(image.flows@.take(index as int) == image.flows@);
    count
}

/// Count, first payload and last size of a flow's initial data packets.
fn data_packet_summary(packets: &Vec<PacketDescriptor>, flow: FlowId) -> (summary: (
    usize,
    Option<crate::event::PayloadId>,
    u64,
))
    ensures
        summary.0 == data_packets_of(packets@, flow),
        summary.1 == first_data_payload(packets@, flow),
        summary.2 == last_data_size(packets@, flow),
{
    let mut count: usize = 0;
    let mut first: Option<crate::event::PayloadId> = None;
    let mut last_size: u64 = 0;
    let mut index: usize = 0;
    while index < packets.len()
        invariant
            index <= packets.len(),
            count == data_packets_of(packets@.take(index as int), flow),
            count <= index,
            first == first_data_payload(packets@.take(index as int), flow),
            last_size == last_data_size(packets@.take(index as int), flow),
        decreases packets.len() - index,
    {
        assert(packets@.take(index as int + 1).drop_last() == packets@.take(index as int));
        let packet = packets[index];
        if packet.flow == flow && packet.kind.is_data() {
            count += 1;
            if first.is_none() {
                first = Some(packet.id);
            }
            last_size = packet.size_bytes;
        }
        index += 1;
    }
    assert(packets@.take(index as int) == packets@);
    (count, first, last_size)
}

fn find_last_data_flow(packets: &Vec<PacketDescriptor>, payload: crate::event::PayloadId) -> (flow:
    Option<FlowId>)
    ensures
        flow == last_data_flow(packets@, payload),
{
    let mut index: usize = packets.len();
    assert(packets@.take(index as int) == packets@);
    while index > 0
        invariant
            index <= packets.len(),
            last_data_flow(packets@, payload) == last_data_flow(
                packets@.take(index as int),
                payload,
            ),
        decreases index,
    {
        let packet = packets[index - 1];
        assert(packets@.take(index as int).drop_last() == packets@.take(index as int - 1));
        assert(packets@.take(index as int).last() == packet);
        if packet.id == payload && packet.kind.is_data() {
            return Some(packet.flow);
        }
        index -= 1;
    }
    None
}

fn arrival_matches_exec(image: &SimulationImage, flow: usize, event: crate::event::Event) -> (matched:
    bool)
    requires
        flow < image.flows.len(),
        flow_references_valid(*image),
        topology_valid(*image),
    ensures
        matched == arrival_matches(*image, flow as int, event),
{
    let descriptor = &image.flows[flow];
    let source = image.nodes[descriptor.source.0 as usize];
    assert(source == image.nodes[source_index(*image, flow as int)]);
    if source.kind != crate::model::NodeKind::Host {
        return false;
    }
    let state = &image.host_states[source.state_slot as usize];
    if state.generators.len() != 1 {
        return false;
    }
    let generator = state.generators[0];
    event.target == descriptor.source && event.kind == EventKind::PacketArrival && event.payload
        == generator.next_emission.payload && event.key.time_ns
        == generator.next_emission.departure_time_ns
}

pub open spec fn source_index(image: SimulationImage, flow: int) -> int {
    image.flows[flow].source.0 as int
}

fn matching_arrival_counts(image: &SimulationImage) -> (counts: Vec<usize>)
    requires
        flow_references_valid(*image),
        topology_valid(*image),
    ensures
        counts@ == arrival_counts(*image, image.initial_events@),
        counts.len() == image.flows.len(),
{
    let mut counts: Vec<usize> = Vec::new();
    while counts.len() < image.flows.len()
        invariant
            counts.len() <= image.flows.len(),
            forall|i: int| 0 <= i < counts.len() ==> counts[i] == 0,
        decreases image.flows.len() - counts.len(),
    {
        counts.push(0);
    }
    assert(counts@ == zero_counts(image.flows.len() as nat));
    let mut index: usize = 0;
    while index < image.initial_events.len()
        invariant
            flow_references_valid(*image),
            topology_valid(*image),
            index <= image.initial_events.len(),
            counts.len() == image.flows.len(),
            counts@ == arrival_counts(*image, image.initial_events@.take(index as int)),
        decreases image.initial_events.len() - index,
    {
        assert(image.initial_events@.take(index as int + 1).drop_last()
            == image.initial_events@.take(index as int));
        let event = image.initial_events[index];
        match find_last_data_flow(&image.initial_packets, event.payload) {
            Some(flow) => {
                proof {
                    lemma_last_data_flow_valid(*image, image.initial_packets@, event.payload);
                }
                let slot = flow.0 as usize;
                if arrival_matches_exec(image, slot, event) {
                    let next = counts[slot].saturating_add(1);
                    counts.set(slot, next);
                }
            },
            None => {},
        }
        index += 1;
    }
    assert(image.initial_events@.take(index as int) == image.initial_events@);
    counts
}

proof fn lemma_last_data_flow_valid(
    image: SimulationImage,
    packets: Seq<PacketDescriptor>,
    payload: crate::event::PayloadId,
)
    requires
        forall|index: int| 0 <= index < packets.len() ==> (#[trigger] packets[index]).flow.0
            < image.flows.len(),
    ensures
        match last_data_flow(packets, payload) {
            Some(flow) => flow.0 < image.flows.len(),
            None => true,
        },
    decreases packets.len(),
{
    if packets.len() > 0 {
        let rest = packets.drop_last();
        assert forall|index: int| 0 <= index < rest.len() implies (#[trigger] rest[index]).flow.0
            < image.flows.len() by {
            assert(rest[index] == packets[index]);
        }
        lemma_last_data_flow_valid(image, rest, payload);
        assert(packets[packets.len() - 1] == packets.last());
    }
}

/// Per-flow source queue bounds, or the first source serialization failure in flow order.
fn source_queue_bounds(image: &SimulationImage, packet_counts: &Vec<usize>) -> (bounds: Result<
    Vec<usize>,
    DeviceSizingError,
>)
    requires
        flow_references_valid(*image),
        topology_valid(*image),
        packet_counts.len() == image.flows.len(),
    ensures
        match bounds {
            Ok(bounds) => spec_source_queue_bounds(*image, packet_counts@) == Ok::<
                Seq<usize>,
                TimeError,
            >(bounds@),
            Err(error) => exists|cause: TimeError|
                spec_source_queue_bounds(*image, packet_counts@) == Err::<Seq<usize>, TimeError>(
                    cause,
                ) && error == DeviceSizingError(SizingFault::SourceSerialization(cause)),
        },
{
    let arrivals = matching_arrival_counts(image);
    let mut bounds: Vec<usize> = Vec::new();
    let mut flow: usize = 0;
    while flow < image.flows.len()
        invariant
            flow_references_valid(*image),
            topology_valid(*image),
            packet_counts.len() == image.flows.len(),
            arrivals@ == arrival_counts(*image, image.initial_events@),
            arrivals.len() == image.flows.len(),
            flow <= image.flows.len(),
            source_queue_bounds_upto(*image, packet_counts@, flow as nat) == Ok::<
                Seq<usize>,
                TimeError,
            >(bounds@),
        decreases image.flows.len() - flow,
    {
        match source_queue_bound(image, packet_counts, &arrivals, flow) {
            Ok(bound) => bounds.push(bound),
            Err(cause) => {
                proof {
                    lemma_source_bounds_stay_err(*image, packet_counts@, flow as nat + 1, cause);
                }
                return Err(DeviceSizingError(SizingFault::SourceSerialization(cause)));
            },
        }
        flow += 1;
    }
    Ok(bounds)
}

proof fn lemma_source_bounds_stay_err(
    image: SimulationImage,
    counts: Seq<usize>,
    count: nat,
    cause: TimeError,
)
    requires
        count <= image.flows.len(),
        source_queue_bounds_upto(image, counts, count) == Err::<Seq<usize>, TimeError>(cause),
    ensures
        spec_source_queue_bounds(image, counts) == Err::<Seq<usize>, TimeError>(cause),
    decreases image.flows.len() - count,
{
    if count < image.flows.len() {
        lemma_source_bounds_stay_err(image, counts, count + 1, cause);
    }
}

fn source_queue_bound(
    image: &SimulationImage,
    packet_counts: &Vec<usize>,
    arrivals: &Vec<usize>,
    flow: usize,
) -> (bound: Result<usize, TimeError>)
    requires
        flow_references_valid(*image),
        topology_valid(*image),
        packet_counts.len() == image.flows.len(),
        arrivals@ == arrival_counts(*image, image.initial_events@),
        arrivals.len() == image.flows.len(),
        flow < image.flows.len(),
    ensures
        bound == spec_source_queue_bound(*image, packet_counts@, flow as int),
{
    let packets = packet_counts[flow];
    let descriptor = &image.flows[flow];
    let source = image.nodes[descriptor.source.0 as usize];
    assert(source == image.nodes[source_index(*image, flow as int)]);
    if packets == 0 || count_flows_from(image, descriptor.source) != 1 || source.kind
        != crate::model::NodeKind::Host {
        return Ok(packets);
    }
    let state = &image.host_states[source.state_slot as usize];
    if state.generators.len() != 1 {
        return Ok(packets);
    }
    let generator = state.generators[0];
    let (data_count, first_payload, last_size) = data_packet_summary(
        &image.initial_packets,
        FlowId(flow as u64),
    );
    let fresh = generator.flow.0 == flow as u64 && generator.next_emission.status
        == GeneratorStatus::Scheduled && generator.packets_emitted == 0 && generator.bytes_emitted
        == 0 && state.queue.len() == 0 && state.in_service.is_none() && !state.tx_ready_pending
        && data_count == 1 && first_payload == Some(generator.next_emission.payload)
        && arrivals[flow] == 1;
    let is_tcp = match generator.kind {
        FlowGeneratorKind::Tcp(_) => true,
        _ => false,
    };
    if is_tcp || !fresh || descriptor.route.len() == 0 || descriptor.route[0]
        != state.egress_link {
        return Ok(packets);
    }
    match generator.kind {
        FlowGeneratorKind::Constant(constant) => {
            if last_size != constant.packet_size_bytes {
                return Ok(packets);
            }
            let link = image.links[descriptor.route[0].0 as usize];
            match crate::time::serialization_time_ns(constant.packet_size_bytes, link.rate_bps) {
                Err(error) => Err(error),
                Ok(serialization) => {
                    let paced = if constant.interval_ns >= serialization {
                        if packets <= 1 {
                            packets
                        } else {
                            1
                        }
                    } else {
                        packets
                    };
                    if paced == packets {
                        Ok(packets)
                    } else {
                        let raised = state.queue.len().saturating_add(paced);
                        Ok(
                            if raised <= packets {
                                raised
                            } else {
                                packets
                            },
                        )
                    }
                },
            }
        },
        _ => Ok(packets),
    }
}

// ---------------------------------------------------------------------------------------------
// Capacity context and per-hop bounds.

/// Smallest declared channel delay: the conservative lookahead of the plan.
pub open spec fn spec_lookahead(channels: Seq<crate::image::RemoteChannel>) -> Option<u64>
    decreases channels.len(),
{
    if channels.len() == 0 {
        None
    } else {
        let delay = channels.last().min_delay_ns;
        match spec_lookahead(channels.drop_last()) {
            None => Some(delay),
            Some(rest) => Some(u64_min(rest, delay)),
        }
    }
}

pub(crate) fn minimum_lookahead(image: &SimulationImage) -> (lookahead: Option<u64>)
    ensures
        lookahead == spec_lookahead(image.channels@),
{
    let mut lookahead: Option<u64> = None;
    let mut index: usize = 0;
    while index < image.channels.len()
        invariant
            index <= image.channels.len(),
            lookahead == spec_lookahead(image.channels@.take(index as int)),
        decreases image.channels.len() - index,
    {
        assert(image.channels@.take(index as int + 1).drop_last() == image.channels@.take(
            index as int,
        ));
        let delay = image.channels[index].min_delay_ns;
        lookahead = match lookahead {
            None => Some(delay),
            Some(rest) => Some(if rest <= delay { rest } else { delay }),
        };
        index += 1;
    }
    assert(image.channels@.take(index as int) == image.channels@);
    lookahead
}

/// Some generator of the flow is a closed-loop TCP sender.
pub open spec fn closed_loop(image: SimulationImage, flow: int) -> bool {
    exists|index: int|
        0 <= index < image_generators(image).len() && (#[trigger] image_generators(
            image,
        )[index]).flow.0 == flow && image_generators(image)[index].kind is Tcp
}

/// Pacing interval of a generator that still owns emissions, if any.
pub open spec fn emission_interval(generator: FlowGeneratorState) -> Option<u64> {
    match generator.kind {
        FlowGeneratorKind::Constant(constant) => if generator.next_emission.status is Scheduled {
            Some(constant.interval_ns)
        } else {
            None
        },
        FlowGeneratorKind::Rate(rate) => if generator.next_emission.status is Scheduled
            || generator.next_emission.status is Blocked {
            Some(rate.pacing_interval_ns)
        } else {
            None
        },
        FlowGeneratorKind::Tcp(_) => None,
    }
}

/// Emissions one paced generator can make within the lookahead, capped by the packet count.
pub open spec fn interval_burst(packet_count: usize, lookahead: Option<u64>, interval: u64) -> nat {
    match lookahead {
        None => packet_count as nat,
        Some(horizon) => {
            let ticks = sat((horizon / interval) as int).saturating_add(1);
            if packet_count <= ticks { packet_count as nat } else { ticks as nat }
        },
    }
}

/// Sum of the paced bursts of a flow's generators.
pub open spec fn generator_bursts(
    generators: Seq<FlowGeneratorState>,
    flow: int,
    packet_count: usize,
    lookahead: Option<u64>,
) -> nat
    decreases generators.len(),
{
    if generators.len() == 0 {
        0
    } else {
        let generator = generators.last();
        generator_bursts(generators.drop_last(), flow, packet_count, lookahead) + if generator.flow.0
            == flow && emission_interval(generator) is Some {
            interval_burst(packet_count, lookahead, emission_interval(generator)->0)
        } else {
            0nat
        }
    }
}

/// Everything the per-hop bounds read, derived once per image.
pub struct CapacityContext {
    pub packet_counts: Vec<usize>,
    pub feedback_counts: Vec<usize>,
    pub source_queue_bounds: Vec<usize>,
    pub minimum_data_sizes: Vec<u64>,
    pub minimum_feedback_sizes: Vec<u64>,
    pub lookahead: Option<u64>,
    pub generators: Vec<FlowGeneratorState>,
}

/// The values of a capacity context.
pub struct ContextModel {
    pub packet_counts: Seq<usize>,
    pub feedback_counts: Seq<usize>,
    pub source_queue_bounds: Seq<usize>,
    pub minimum_data_sizes: Seq<u64>,
    pub minimum_feedback_sizes: Seq<u64>,
    pub lookahead: Option<u64>,
    pub generators: Seq<FlowGeneratorState>,
}

impl View for CapacityContext {
    type V = ContextModel;

    open spec fn view(&self) -> ContextModel {
        ContextModel {
            packet_counts: self.packet_counts@,
            feedback_counts: self.feedback_counts@,
            source_queue_bounds: self.source_queue_bounds@,
            minimum_data_sizes: self.minimum_data_sizes@,
            minimum_feedback_sizes: self.minimum_feedback_sizes@,
            lookahead: self.lookahead,
            generators: self.generators@,
        }
    }
}

/// The context of an image: packet budgets, source queue bounds, smallest packets, lookahead.
pub open spec fn context_of(image: SimulationImage, context: ContextModel) -> bool {
    &&& spec_flow_packet_counts(image) == Some(context.packet_counts)
    &&& context.packet_counts.len() == image.flows.len()
    &&& context.feedback_counts == spec_feedback_packet_counts(image, context.packet_counts)
    &&& context.feedback_counts.len() == image.flows.len()
    &&& spec_source_queue_bounds(image, context.packet_counts) == Ok::<Seq<usize>, TimeError>(
        context.source_queue_bounds,
    )
    &&& context.source_queue_bounds.len() == image.flows.len()
    &&& context.minimum_data_sizes == spec_min_packet_sizes(image, true)
    &&& context.minimum_feedback_sizes == spec_min_packet_sizes(image, false)
    &&& context.lookahead == spec_lookahead(image.channels@)
    &&& context.generators == image_generators(image)
}

/// Data packets of a flow: its budget less its feedback packets.
pub open spec fn data_count(context: ContextModel, flow: int) -> usize {
    context.packet_counts[flow].saturating_sub(context.feedback_counts[flow])
}

/// Packets of the direction: data packets forward, feedback packets back.
pub open spec fn direction_count(context: ContextModel, flow: int, data: bool) -> usize {
    if data { data_count(context, flow) } else { context.feedback_counts[flow] }
}

pub open spec fn route_of(image: SimulationImage, flow: int, data: bool) -> Seq<LinkId> {
    if data { image.flows[flow].route@ } else { image.flows[flow].reverse_route@ }
}

/// Serialization of the direction's smallest packet on a link.
pub open spec fn hop_serialization(
    image: SimulationImage,
    context: ContextModel,
    flow: int,
    data: bool,
    link: LinkId,
) -> Result<u64, TimeError> {
    let size = if data {
        context.minimum_data_sizes[flow]
    } else {
        context.minimum_feedback_sizes[flow]
    };
    crate::time::spec_serialization_time_ns(size, image.links[link.0 as int].rate_bps)
}

/// Every hop that carries packets has a positive, finite serialization of its smallest packet,
/// and every paced generator whose burst a hop bound reads has a positive interval.
pub open spec fn hop_bounds_defined(image: SimulationImage, context: ContextModel) -> bool {
    &&& forall|flow: int, data: bool, hop: int|
        0 <= flow < image.flows.len() && 0 <= hop < route_of(image, flow, data).len()
            && direction_count(context, flow, data) > 0 ==> {
            let serialization = #[trigger] hop_serialization(
                image,
                context,
                flow,
                data,
                route_of(image, flow, data)[hop],
            );
            serialization is Ok && serialization->Ok_0 > 0
        }
    &&& forall|index: int|
        0 <= index < image_generators(image).len() && context.lookahead is Some && {
            let flow = (#[trigger] image_generators(image)[index]).flow.0 as int;
            &&& !closed_loop(image, flow)
            &&& data_count(context, flow) > 0
            &&& route_leaves_source(image, flow)
        } ==> match emission_interval(image_generators(image)[index]) {
            Some(interval) => interval > 0,
            None => true,
        }
}

/// Some hop of the flow's data route leaves the flow's source.
pub open spec fn route_leaves_source(image: SimulationImage, flow: int) -> bool {
    exists|hop: int|
        0 <= hop < image.flows[flow].route.len() && image.links[(
        #[trigger] image.flows[flow].route[hop]).0 as int].source == image.flows[flow].source
}

/// Capacity of the first queue of a switch, `packet_count` when unbounded or beyond `usize`.
pub open spec fn switch_queue_capacity(queue: crate::image::SwitchQueueState, packet_count: usize) -> usize {
    if queue.queue_capacity_packets == 0 || queue.queue_capacity_packets > usize::MAX {
        packet_count
    } else {
        queue.queue_capacity_packets as usize
    }
}

/// Packets of the flow one hop can hold in one round: the source queue, one in service, a
/// lookahead's worth of service and, on the source's own hop, its generators' bursts.
pub open spec fn spec_round_bound(
    image: SimulationImage,
    context: ContextModel,
    flow: int,
    packet_count: usize,
    data: bool,
    link: LinkId,
) -> usize {
    if packet_count == 0 {
        0
    } else {
        let descriptor = image.links[link.0 as int];
        let source = image.nodes[descriptor.source.0 as int];
        let (current, capacity) = if source.kind is Host {
            let state = image.host_states[source.state_slot as int];
            (
                state.queue@.len() as usize,
                if data && source.id == image.flows[flow].source {
                    context.source_queue_bounds[flow]
                } else {
                    packet_count
                },
            )
        } else {
            let queues = image.switch_states[source.state_slot as int].queues@;
            if queues.len() == 0 {
                (0usize, packet_count)
            } else {
                (queues[0].queue@.len() as usize, switch_queue_capacity(queues[0], packet_count))
            }
        };
        let queue_bound = if current >= capacity { current } else { capacity };
        let serialization = hop_serialization(image, context, flow, data, link)->Ok_0;
        let service = match context.lookahead {
            None => packet_count,
            Some(horizon) => sat(ceil_div(horizon as nat, serialization as nat) as int),
        };
        let bursts = if data && descriptor.source == image.flows[flow].source {
            if closed_loop(image, flow) {
                packet_count
            } else {
                sat(
                    generator_bursts(
                        image_generators(image),
                        flow,
                        packet_count,
                        context.lookahead,
                    ) as int,
                )
            }
        } else {
            0
        };
        let total = queue_bound.saturating_add(1).saturating_add(service).saturating_add(bursts);
        if packet_count <= total { packet_count } else { total }
    }
}

/// Packets of the flow in the hop's fallback event list: a round's worth plus those in flight.
pub open spec fn spec_fel_bound(
    image: SimulationImage,
    context: ContextModel,
    flow: int,
    packet_count: usize,
    data: bool,
    link: LinkId,
) -> usize {
    if packet_count == 0 {
        0
    } else {
        let serialization = hop_serialization(image, context, flow, data, link)->Ok_0;
        let in_flight = sat(
            ceil_div(image.links[link.0 as int].propagation_ns as nat, serialization as nat) as int,
        );
        let total = spec_round_bound(image, context, flow, packet_count, data, link).saturating_add(
            in_flight,
        );
        if packet_count <= total { packet_count } else { total }
    }
}

fn ceil_div_u64(numerator: u64, denominator: u64) -> (quotient: u64)
    requires
        denominator > 0,
    ensures
        quotient == ceil_div(numerator as nat, denominator as nat),
{
    proof {
        let r = numerator as int;
        let m = denominator as int;
        assert(r % m != 0 ==> r / m < u64::MAX) by (nonlinear_arith)
            requires
                m > 0,
                r <= u64::MAX,
        {
            assert(r == m * (r / m) + r % m);
            if r % m != 0 && r / m >= u64::MAX {
                assert(m * (r / m) >= r / m);
            }
        }
    }
    let quotient = numerator / denominator + if numerator % denominator == 0 { 0 } else { 1 };
    proof {
        let r = numerator as nat;
        let m = denominator as nat;
        assert(quotient as nat == ceil_div(r, m)) by (nonlinear_arith)
            requires
                m > 0,
                quotient == r / m + if r % m == 0 { 0nat } else { 1nat },
        {
            assert(r == m * (r / m) + r % m);
        }
    }
    quotient
}

fn closed_loop_exec(image: &SimulationImage, context: &CapacityContext, flow: usize) -> (closed: bool)
    requires
        context.generators@ == image_generators(*image),
    ensures
        closed == closed_loop(*image, flow as int),
{
    let mut index: usize = 0;
    while index < context.generators.len()
        invariant
            context.generators@ == image_generators(*image),
            index <= context.generators.len(),
            forall|earlier: int|
                0 <= earlier < index ==> !((#[trigger] image_generators(*image)[earlier]).flow.0
                    == flow && image_generators(*image)[earlier].kind is Tcp),
        decreases context.generators.len() - index,
    {
        let generator = context.generators[index];
        let is_tcp = match generator.kind {
            FlowGeneratorKind::Tcp(_) => true,
            _ => false,
        };
        if generator.flow.0 == flow as u64 && is_tcp {
            assert(image_generators(*image)[index as int] == generator);
            return true;
        }
        index += 1;
    }
    false
}

/// Saturated sum of the paced bursts of a flow's generators.
fn generator_burst_sum(
    image: &SimulationImage,
    context: &CapacityContext,
    flow: usize,
    packet_count: usize,
) -> (burst: usize)
    requires
        context.generators@ == image_generators(*image),
        context.lookahead is Some ==> forall|index: int|
            0 <= index < image_generators(*image).len() && (#[trigger] image_generators(
                *image,
            )[index]).flow.0 == flow ==> match emission_interval(image_generators(*image)[index]) {
                Some(interval) => interval > 0,
                None => true,
            },
    ensures
        burst == sat(
            generator_bursts(image_generators(*image), flow as int, packet_count, context.lookahead)
                as int,
        ),
{
    let mut total: usize = 0;
    let mut index: usize = 0;
    while index < context.generators.len()
        invariant
            context.generators@ == image_generators(*image),
            context.lookahead is Some ==> forall|index: int|
                0 <= index < image_generators(*image).len() && (#[trigger] image_generators(
                    *image,
                )[index]).flow.0 == flow ==> match emission_interval(
                    image_generators(*image)[index],
                ) {
                    Some(interval) => interval > 0,
                    None => true,
                },
            index <= context.generators.len(),
            total == sat(
                generator_bursts(
                    context.generators@.take(index as int),
                    flow as int,
                    packet_count,
                    context.lookahead,
                ) as int,
            ),
        decreases context.generators.len() - index,
    {
        assert(context.generators@.take(index as int + 1).drop_last() == context.generators@.take(
            index as int,
        ));
        let generator = context.generators[index];
        assert(generator == image_generators(*image)[index as int]);
        let interval = match generator.kind {
            FlowGeneratorKind::Constant(constant) => if generator.next_emission.status
                == GeneratorStatus::Scheduled {
                Some(constant.interval_ns)
            } else {
                None
            },
            FlowGeneratorKind::Rate(rate) => match generator.next_emission.status {
                GeneratorStatus::Scheduled | GeneratorStatus::Blocked => Some(
                    rate.pacing_interval_ns,
                ),
                _ => None,
            },
            FlowGeneratorKind::Tcp(_) => None,
        };
        assert(interval == emission_interval(generator));
        if generator.flow.0 == flow as u64 {
            if let Some(interval) = interval {
                let term = match context.lookahead {
                    None => packet_count,
                    Some(horizon) => {
                        let ticks = u64_to_usize_saturating(horizon / interval).saturating_add(1);
                        if packet_count <= ticks {
                            packet_count
                        } else {
                            ticks
                        }
                    },
                };
                assert(term == interval_burst(packet_count, context.lookahead, interval));
                total = total.saturating_add(term);
            }
        }
        index += 1;
    }
    assert(context.generators@.take(index as int) == context.generators@);
    total
}

fn flow_link_serialization_ns(
    image: &SimulationImage,
    context: &CapacityContext,
    flow: usize,
    data: bool,
    link: LinkId,
) -> (serialization: u64)
    requires
        flow < image.flows.len(),
        link.0 < image.links.len(),
        context.minimum_data_sizes.len() == image.flows.len(),
        context.minimum_feedback_sizes.len() == image.flows.len(),
        hop_serialization(*image, context@, flow as int, data, link) is Ok,
    ensures
        hop_serialization(*image, context@, flow as int, data, link) == Ok::<u64, TimeError>(
            serialization,
        ),
{
    let size = if data {
        context.minimum_data_sizes[flow]
    } else {
        context.minimum_feedback_sizes[flow]
    };
    match crate::time::serialization_time_ns(size, image.links[link.0 as usize].rate_bps) {
        Ok(value) => value,
        Err(_) => {
            assert(false);
            0
        },
    }
}

/// The requirements a single hop bound reads from `hop_bounds_defined`.
pub open spec fn hop_defined(
    image: SimulationImage,
    context: ContextModel,
    flow: int,
    packet_count: usize,
    data: bool,
    link: LinkId,
) -> bool {
    packet_count > 0 ==> {
        &&& hop_serialization(image, context, flow, data, link) is Ok
        &&& hop_serialization(image, context, flow, data, link)->Ok_0 > 0
        &&& (data && context.lookahead is Some && !closed_loop(image, flow)
            && image.links[link.0 as int].source == image.flows[flow].source) ==> forall|index: int|
            0 <= index < image_generators(image).len() && (#[trigger] image_generators(
                image,
            )[index]).flow.0 == flow ==> match emission_interval(image_generators(image)[index]) {
                Some(interval) => interval > 0,
                None => true,
            }
    }
}

#[verifier::spinoff_prover]
#[verifier::rlimit(40)]
fn flow_link_round_bound(
    image: &SimulationImage,
    context: &CapacityContext,
    flow: usize,
    packet_count: usize,
    data: bool,
    link: LinkId,
) -> (bound: usize)
    requires
        flow < image.flows.len(),
        link.0 < image.links.len(),
        flow_references_valid(*image),
        topology_valid(*image),
        context.generators@ == image_generators(*image),
        context.source_queue_bounds.len() == image.flows.len(),
        context.minimum_data_sizes.len() == image.flows.len(),
        context.minimum_feedback_sizes.len() == image.flows.len(),
        hop_defined(*image, context@, flow as int, packet_count, data, link),
    ensures
        bound == spec_round_bound(*image, context@, flow as int, packet_count, data, link),
{
    if packet_count == 0 {
        return 0;
    }
    let descriptor = image.links[link.0 as usize];
    let source = image.nodes[descriptor.source.0 as usize];
    let (current, capacity) = match source.kind {
        crate::model::NodeKind::Host => {
            let state = &image.host_states[source.state_slot as usize];
            let capacity = if data && source.id == image.flows[flow].source {
                context.source_queue_bounds[flow]
            } else {
                packet_count
            };
            (state.queue.len(), capacity)
        },
        crate::model::NodeKind::Switch => {
            let queues = &image.switch_states[source.state_slot as usize].queues;
            if queues.len() == 0 {
                (0, packet_count)
            } else {
                let queue = &queues[0];
                let limit = queue.queue_capacity_packets;
                let capacity = if limit == 0 || limit as u128 > usize::MAX as u128 {
                    packet_count
                } else {
                    limit as usize
                };
                (queue.queue.len(), capacity)
            }
        },
    };
    let queue_bound = if current >= capacity { current } else { capacity };
    let serialization = flow_link_serialization_ns(image, context, flow, data, link);
    let service = match context.lookahead {
        None => packet_count,
        Some(horizon) => u64_to_usize_saturating(ceil_div_u64(horizon, serialization)),
    };
    let bursts = if data && descriptor.source == image.flows[flow].source {
        if closed_loop_exec(image, context, flow) {
            packet_count
        } else {
            generator_burst_sum(image, context, flow, packet_count)
        }
    } else {
        0
    };
    let total = queue_bound.saturating_add(1).saturating_add(service).saturating_add(bursts);
    if packet_count <= total {
        packet_count
    } else {
        total
    }
}

fn flow_link_fel_bound(
    image: &SimulationImage,
    context: &CapacityContext,
    flow: usize,
    packet_count: usize,
    data: bool,
    link: LinkId,
) -> (bound: usize)
    requires
        flow < image.flows.len(),
        link.0 < image.links.len(),
        flow_references_valid(*image),
        topology_valid(*image),
        context.generators@ == image_generators(*image),
        context.source_queue_bounds.len() == image.flows.len(),
        context.minimum_data_sizes.len() == image.flows.len(),
        context.minimum_feedback_sizes.len() == image.flows.len(),
        hop_defined(*image, context@, flow as int, packet_count, data, link),
    ensures
        bound == spec_fel_bound(*image, context@, flow as int, packet_count, data, link),
{
    if packet_count == 0 {
        return 0;
    }
    let serialization = flow_link_serialization_ns(image, context, flow, data, link);
    let in_flight = u64_to_usize_saturating(
        ceil_div_u64(image.links[link.0 as usize].propagation_ns, serialization),
    );
    let total = flow_link_round_bound(image, context, flow, packet_count, data, link).saturating_add(
        in_flight,
    );
    if packet_count <= total {
        packet_count
    } else {
        total
    }
}

/// The hop bound requirements of one hop follow from those of the image.
proof fn lemma_hop_defined(
    image: SimulationImage,
    context: ContextModel,
    flow: int,
    data: bool,
    hop: int,
)
    requires
        hop_bounds_defined(image, context),
        0 <= flow < image.flows.len(),
        0 <= hop < route_of(image, flow, data).len(),
    ensures
        hop_defined(
            image,
            context,
            flow,
            direction_count(context, flow, data),
            data,
            route_of(image, flow, data)[hop],
        ),
{
    let link = route_of(image, flow, data)[hop];
    let _ = hop_serialization(image, context, flow, data, link);
    if data && direction_count(context, flow, data) > 0 && context.lookahead is Some
        && !closed_loop(image, flow) && image.links[link.0 as int].source
        == image.flows[flow].source {
        assert(route_leaves_source(image, flow)) by {
            assert(image.flows[flow].route[hop] == link);
        }
        assert forall|index: int|
            0 <= index < image_generators(image).len() && (#[trigger] image_generators(
                image,
            )[index]).flow.0 == flow implies match emission_interval(
            image_generators(image)[index],
        ) {
            Some(interval) => interval > 0,
            None => true,
        } by {}
    }
}

/// LP that a hop of the flow's route delivers to: the next hop's transmitter, or the route's end.
pub open spec fn hop_target(image: SimulationImage, flow: int, data: bool, hop: int) -> NodeId {
    let route = route_of(image, flow, data);
    if hop + 1 < route.len() {
        image.links[route[hop + 1].0 as int].source
    } else if data {
        image.flows[flow].target
    } else {
        image.flows[flow].source
    }
}

/// Per-LP fallback-event and queue capacities after the first `hops` hops of one direction.
pub open spec fn route_additions(
    image: SimulationImage,
    context: ContextModel,
    flow: int,
    data: bool,
    hops: nat,
    fel: Seq<usize>,
    queue: Seq<usize>,
) -> (Seq<usize>, Seq<usize>)
    decreases hops,
{
    if hops == 0 {
        (fel, queue)
    } else {
        let (fel, queue) = route_additions(image, context, flow, data, (hops - 1) as nat, fel, queue);
        let hop = hops - 1;
        let count = direction_count(context, flow, data);
        let target = hop_target(image, flow, data, hop).0 as int;
        let burst = spec_fel_bound(image, context, flow, count, data, route_of(image, flow, data)[hop]);
        let fel = fel.update(target, fel[target].saturating_add(burst));
        let queue = if image.nodes[target].kind is Switch {
            queue.update(target, queue[target].saturating_add(count))
        } else {
            queue
        };
        (fel, queue)
    }
}

/// The route's hops deliver to declared LPs.
pub proof fn lemma_hop_target_valid(image: SimulationImage, flow: int, data: bool, hop: int)
    requires
        flow_references_valid(image),
        topology_valid(image),
        0 <= flow < image.flows.len(),
        0 <= hop < route_of(image, flow, data).len(),
    ensures
        hop_target(image, flow, data, hop).0 < image.nodes.len(),
        route_of(image, flow, data)[hop].0 < image.links.len(),
{
    let route = route_of(image, flow, data);
    if data {
        assert(image.flows[flow].route[hop] == route[hop]);
        if hop + 1 < route.len() {
            assert(image.flows[flow].route[hop + 1] == route[hop + 1]);
        }
    } else {
        assert(image.flows[flow].reverse_route[hop] == route[hop]);
        if hop + 1 < route.len() {
            assert(image.flows[flow].reverse_route[hop + 1] == route[hop + 1]);
        }
    }
    if hop + 1 < route.len() {
        let next = route[hop + 1];
        assert(image.links[next.0 as int].source.0 < image.nodes.len());
    }
}

/// Adds one direction of a flow to the per-LP fallback-event and queue capacities.
fn add_flow_route_capacities(
    image: &SimulationImage,
    context: &CapacityContext,
    flow: usize,
    data: bool,
    fel: &mut Vec<usize>,
    queue: &mut Vec<usize>,
)
    requires
        flow < image.flows.len(),
        flow_references_valid(*image),
        topology_valid(*image),
        context_of(*image, context@),
        hop_bounds_defined(*image, context@),
        old(fel).len() == image.nodes.len(),
        old(queue).len() == image.nodes.len(),
    ensures
        (final(fel)@, final(queue)@) == route_additions(
            *image,
            context@,
            flow as int,
            data,
            route_of(*image, flow as int, data).len(),
            old(fel)@,
            old(queue)@,
        ),
        final(fel).len() == image.nodes.len(),
        final(queue).len() == image.nodes.len(),
{
    let count = if data {
        context.packet_counts[flow].saturating_sub(context.feedback_counts[flow])
    } else {
        context.feedback_counts[flow]
    };
    assert(count == direction_count(context@, flow as int, data));
    let route = if data {
        &image.flows[flow].route
    } else {
        &image.flows[flow].reverse_route
    };
    assert(route@ == route_of(*image, flow as int, data));
    let ghost initial_fel = fel@;
    let ghost initial_queue = queue@;
    let mut hop: usize = 0;
    while hop < route.len()
        invariant
            flow < image.flows.len(),
            flow_references_valid(*image),
            topology_valid(*image),
            context_of(*image, context@),
            hop_bounds_defined(*image, context@),
            route@ == route_of(*image, flow as int, data),
            count == direction_count(context@, flow as int, data),
            hop <= route.len(),
            fel.len() == image.nodes.len(),
            queue.len() == image.nodes.len(),
            (fel@, queue@) == route_additions(
                *image,
                context@,
                flow as int,
                data,
                hop as nat,
                initial_fel,
                initial_queue,
            ),
        decreases route.len() - hop,
    {
        proof {
            lemma_hop_target_valid(*image, flow as int, data, hop as int);
            lemma_hop_defined(*image, context@, flow as int, data, hop as int);
        }
        let target = if hop + 1 < route.len() {
            image.links[route[hop + 1].0 as usize].source
        } else if data {
            image.flows[flow].target
        } else {
            image.flows[flow].source
        };
        assert(target == hop_target(*image, flow as int, data, hop as int));
        let slot = target.0 as usize;
        let burst = flow_link_fel_bound(image, context, flow, count, data, route[hop]);
        let raised = fel[slot].saturating_add(burst);
        fel.set(slot, raised);
        if image.nodes[slot].kind == crate::model::NodeKind::Switch {
            let raised = queue[slot].saturating_add(count);
            queue.set(slot, raised);
        }
        hop += 1;
    }
}

/// Fallback-event capacity of each LP before any flow: eight slots plus its initial events.
pub open spec fn initial_fel_capacities(image: SimulationImage, events: nat) -> Seq<usize>
    decreases events,
{
    if events == 0 {
        Seq::new(image.nodes.len() as nat, |i: int| 8usize)
    } else {
        let fel = initial_fel_capacities(image, (events - 1) as nat);
        let target = image.initial_events[events - 1].target.0 as int;
        fel.update(target, fel[target].saturating_add(1))
    }
}

/// Per-LP capacities after the first `flows` flows: each flow's source queue bound and four
/// generator slots at its source, then the bursts of its data and feedback hops.
pub open spec fn flow_capacities(image: SimulationImage, context: ContextModel, flows: nat) -> (
    Seq<usize>,
    Seq<usize>,
)
    decreases flows,
{
    if flows == 0 {
        (
            initial_fel_capacities(image, image.initial_events.len() as nat),
            Seq::new(image.nodes.len() as nat, |i: int| 1usize),
        )
    } else {
        let (fel, queue) = flow_capacities(image, context, (flows - 1) as nat);
        let flow = flows - 1;
        let source = image.flows[flow].source.0 as int;
        let queue = queue.update(
            source,
            queue[source].saturating_add(context.source_queue_bounds[flow]),
        );
        let fel = fel.update(source, fel[source].saturating_add(4));
        let (fel, queue) = route_additions(
            image,
            context,
            flow,
            true,
            route_of(image, flow, true).len(),
            fel,
            queue,
        );
        route_additions(image, context, flow, false, route_of(image, flow, false).len(), fel, queue)
    }
}

/// A node's queue capacity raised to its resident queue and capped by a tail-drop limit.
pub open spec fn adjusted_queue_capacity(image: SimulationImage, node: int, capacity: usize) -> usize {
    let descriptor = image.nodes[node];
    if descriptor.kind is Host {
        let resident = image.host_states[descriptor.state_slot as int].queue@.len() as usize;
        if capacity >= resident { capacity } else { resident }
    } else {
        let queues = image.switch_states[descriptor.state_slot as int].queues@;
        let resident = if queues.len() == 0 { 0usize } else { queues[0].queue@.len() as usize };
        let raised = if capacity >= resident { capacity } else { resident };
        if queues.len() > 0 && queues[0].drop_mark is TailDrop && queues[0].queue_capacity_packets
            != 0 {
            let limit = queues[0].queue_capacity_packets as usize;
            if raised <= limit { raised } else { limit }
        } else {
            raised
        }
    }
}

/// Queue capacities after the first `nodes` nodes are adjusted.
pub open spec fn adjusted_queue_capacities(image: SimulationImage, queue: Seq<usize>, nodes: nat) -> Seq<
    usize,
>
    decreases nodes,
{
    if nodes == 0 {
        queue
    } else {
        let queue = adjusted_queue_capacities(image, queue, (nodes - 1) as nat);
        let slot = image.nodes[nodes - 1].id.0 as int;
        queue.update(slot, adjusted_queue_capacity(image, nodes - 1, queue[slot]))
    }
}

/// Legacy fallback-event capacities and adjusted queue capacities of every LP.
pub open spec fn spec_lp_capacities(image: SimulationImage, context: ContextModel) -> (
    Seq<usize>,
    Seq<usize>,
) {
    let (fel, queue) = flow_capacities(image, context, image.flows.len() as nat);
    (fel, adjusted_queue_capacities(image, queue, image.nodes.len() as nat))
}

fn lp_capacities(image: &SimulationImage, context: &CapacityContext) -> (capacities: (
    Vec<usize>,
    Vec<usize>,
))
    requires
        flow_references_valid(*image),
        topology_valid(*image),
        context_of(*image, context@),
        hop_bounds_defined(*image, context@),
    ensures
        (capacities.0@, capacities.1@) == spec_lp_capacities(*image, context@),
        capacities.0.len() == image.nodes.len(),
        capacities.1.len() == image.nodes.len(),
{
    let node_count = image.nodes.len();
    let mut queue: Vec<usize> = Vec::new();
    let mut fel: Vec<usize> = Vec::new();
    while queue.len() < node_count
        invariant
            queue.len() <= node_count,
            fel.len() == queue.len(),
            forall|i: int| 0 <= i < queue.len() ==> queue[i] == 1 && fel[i] == 8,
        decreases node_count - queue.len(),
    {
        queue.push(1);
        fel.push(8);
    }
    assert(fel@ == initial_fel_capacities(*image, 0));
    let mut index: usize = 0;
    while index < image.initial_events.len()
        invariant
            topology_valid(*image),
            index <= image.initial_events.len(),
            fel.len() == node_count,
            node_count == image.nodes.len(),
            fel@ == initial_fel_capacities(*image, index as nat),
        decreases image.initial_events.len() - index,
    {
        let slot = image.initial_events[index].target.0 as usize;
        let raised = fel[slot].saturating_add(1);
        fel.set(slot, raised);
        index += 1;
    }
    assert(queue@ == Seq::new(image.nodes.len() as nat, |i: int| 1usize));
    let mut flow: usize = 0;
    while flow < image.flows.len()
        invariant
            flow_references_valid(*image),
            topology_valid(*image),
            context_of(*image, context@),
            hop_bounds_defined(*image, context@),
            flow <= image.flows.len(),
            fel.len() == node_count,
            queue.len() == node_count,
            node_count == image.nodes.len(),
            (fel@, queue@) == flow_capacities(*image, context@, flow as nat),
        decreases image.flows.len() - flow,
    {
        let source = image.flows[flow].source.0 as usize;
        let raised = queue[source].saturating_add(context.source_queue_bounds[flow]);
        queue.set(source, raised);
        let raised = fel[source].saturating_add(4);
        fel.set(source, raised);
        add_flow_route_capacities(image, context, flow, true, &mut fel, &mut queue);
        add_flow_route_capacities(image, context, flow, false, &mut fel, &mut queue);
        flow += 1;
    }
    let ghost flowed = queue@;
    let mut node: usize = 0;
    while node < image.nodes.len()
        invariant
            topology_valid(*image),
            node <= image.nodes.len(),
            queue.len() == node_count,
            node_count == image.nodes.len(),
            queue@ == adjusted_queue_capacities(*image, flowed, node as nat),
        decreases image.nodes.len() - node,
    {
        let descriptor = image.nodes[node];
        let slot = descriptor.id.0 as usize;
        let capacity = queue[slot];
        let adjusted = match descriptor.kind {
            crate::model::NodeKind::Host => {
                let resident = image.host_states[descriptor.state_slot as usize].queue.len();
                if capacity >= resident {
                    capacity
                } else {
                    resident
                }
            },
            crate::model::NodeKind::Switch => {
                let queues = &image.switch_states[descriptor.state_slot as usize].queues;
                let resident = if queues.len() == 0 {
                    0
                } else {
                    queues[0].queue.len()
                };
                let raised = if capacity >= resident {
                    capacity
                } else {
                    resident
                };
                let tail_drop = queues.len() > 0 && match queues[0].drop_mark {
                    crate::model::DropMarkPolicy::TailDrop => true,
                    _ => false,
                };
                if tail_drop && queues[0].queue_capacity_packets != 0 {
                    let limit = queues[0].queue_capacity_packets as usize;
                    if raised <= limit {
                        raised
                    } else {
                        limit
                    }
                } else {
                    raised
                }
            },
        };
        assert(adjusted == adjusted_queue_capacity(*image, node as int, capacity));
        queue.set(slot, adjusted);
        node += 1;
    }
    (fel, queue)
}

// ---------------------------------------------------------------------------------------------
// Remote staging.

/// Round bounds of the first `hops` hops of one direction of a flow.
pub open spec fn route_round_sum(
    image: SimulationImage,
    context: ContextModel,
    flow: int,
    data: bool,
    hops: nat,
) -> nat
    decreases hops,
{
    if hops == 0 {
        0
    } else {
        route_round_sum(image, context, flow, data, (hops - 1) as nat) + (spec_round_bound(
            image,
            context,
            flow,
            direction_count(context, flow, data),
            data,
            route_of(image, flow, data)[hops - 1],
        ) as nat)
    }
}

/// Round bounds of every hop of the first `flows` flows, both directions.
pub open spec fn remote_round_total(image: SimulationImage, context: ContextModel, flows: nat) -> nat
    decreases flows,
{
    if flows == 0 {
        0
    } else {
        let flow = flows - 1;
        remote_round_total(image, context, (flows - 1) as nat) + route_round_sum(
            image,
            context,
            flow,
            true,
            route_of(image, flow, true).len(),
        ) + route_round_sum(image, context, flow, false, route_of(image, flow, false).len())
    }
}

/// Outbox records of the whole plan: two per LP plus every hop's round bound, saturating.
pub open spec fn spec_remote_capacity(image: SimulationImage, context: ContextModel) -> usize {
    sat(2 * image.nodes.len() + remote_round_total(image, context, image.flows.len() as nat))
}

proof fn lemma_sat_sat(x: int, y: int)
    requires
        x >= 0,
        y >= 0,
    ensures
        sat(sat(x) + y) == sat(x + y),
{
}

fn derived_remote_capacity(image: &SimulationImage, context: &CapacityContext) -> (capacity: usize)
    requires
        flow_references_valid(*image),
        topology_valid(*image),
        context_of(*image, context@),
        hop_bounds_defined(*image, context@),
    ensures
        capacity == spec_remote_capacity(*image, context@),
{
    let mut total = image.nodes.len().saturating_add(image.nodes.len());
    let ghost base: int = 2 * image.nodes.len();
    let mut flow: usize = 0;
    while flow < image.flows.len()
        invariant
            flow_references_valid(*image),
            topology_valid(*image),
            context_of(*image, context@),
            hop_bounds_defined(*image, context@),
            flow <= image.flows.len(),
            base == 2 * image.nodes.len(),
            total == sat(base + remote_round_total(*image, context@, flow as nat)),
        decreases image.flows.len() - flow,
    {
        let ghost before = remote_round_total(*image, context@, flow as nat);
        let data_count = context.packet_counts[flow].saturating_sub(context.feedback_counts[flow]);
        let feedback_count = context.feedback_counts[flow];
        let mut direction: usize = 0;
        while direction < 2
            invariant
                flow_references_valid(*image),
                topology_valid(*image),
                context_of(*image, context@),
                hop_bounds_defined(*image, context@),
                flow < image.flows.len(),
                direction <= 2,
                base >= 0,
                data_count == direction_count(context@, flow as int, true),
                feedback_count == direction_count(context@, flow as int, false),
                total == sat(base + before + if direction == 0 {
                    0nat
                } else if direction == 1 {
                    route_round_sum(
                        *image,
                        context@,
                        flow as int,
                        true,
                        route_of(*image, flow as int, true).len(),
                    )
                } else {
                    route_round_sum(
                        *image,
                        context@,
                        flow as int,
                        true,
                        route_of(*image, flow as int, true).len(),
                    ) + route_round_sum(
                        *image,
                        context@,
                        flow as int,
                        false,
                        route_of(*image, flow as int, false).len(),
                    )
                }),
            decreases 2 - direction,
        {
            let data = direction == 0;
            let count = if data { data_count } else { feedback_count };
            let route = if data {
                &image.flows[flow].route
            } else {
                &image.flows[flow].reverse_route
            };
            assert(route@ == route_of(*image, flow as int, data));
            let ghost start = total;
            let ghost prior = if direction == 0 {
                0nat
            } else {
                route_round_sum(
                    *image,
                    context@,
                    flow as int,
                    true,
                    route_of(*image, flow as int, true).len(),
                )
            };
            let mut hop: usize = 0;
            while hop < route.len()
                invariant
                    flow_references_valid(*image),
                    topology_valid(*image),
                    context_of(*image, context@),
                    hop_bounds_defined(*image, context@),
                    flow < image.flows.len(),
                    route@ == route_of(*image, flow as int, data),
                    count == direction_count(context@, flow as int, data),
                    hop <= route.len(),
                    base >= 0,
                    total == sat(base + before + prior + route_round_sum(
                        *image,
                        context@,
                        flow as int,
                        data,
                        hop as nat,
                    )),
                decreases route.len() - hop,
            {
                proof {
                    lemma_hop_target_valid(*image, flow as int, data, hop as int);
                    lemma_hop_defined(*image, context@, flow as int, data, hop as int);
                }
                let bound = flow_link_round_bound(image, context, flow, count, data, route[hop]);
                proof {
                    lemma_sat_sat(
                        base + before + prior + route_round_sum(
                            *image,
                            context@,
                            flow as int,
                            data,
                            hop as nat,
                        ),
                        bound as int,
                    );
                }
                total = total.saturating_add(bound);
                hop += 1;
            }
            direction += 1;
        }
        flow += 1;
    }
    total
}

/// Per-producer outbox capacities after the first `hops` hops of one direction.
pub open spec fn remote_additions(
    image: SimulationImage,
    context: ContextModel,
    flow: int,
    data: bool,
    hops: nat,
    capacities: Seq<usize>,
) -> Seq<usize>
    decreases hops,
{
    if hops == 0 {
        capacities
    } else {
        let capacities = remote_additions(image, context, flow, data, (hops - 1) as nat, capacities);
        let link = route_of(image, flow, data)[hops - 1];
        let producer = image.links[link.0 as int].source.0 as int;
        let bound = spec_round_bound(
            image,
            context,
            flow,
            direction_count(context, flow, data),
            data,
            link,
        );
        capacities.update(producer, capacities[producer].saturating_add(bound))
    }
}

/// Per-producer outbox capacities after the first `flows` flows.
pub open spec fn remote_capacities(image: SimulationImage, context: ContextModel, flows: nat) -> Seq<
    usize,
>
    decreases flows,
{
    if flows == 0 {
        Seq::new(image.nodes.len() as nat, |i: int| 2usize)
    } else {
        let flow = flows - 1;
        let capacities = remote_capacities(image, context, (flows - 1) as nat);
        let capacities = remote_additions(
            image,
            context,
            flow,
            true,
            route_of(image, flow, true).len(),
            capacities,
        );
        remote_additions(image, context, flow, false, route_of(image, flow, false).len(), capacities)
    }
}

pub open spec fn spec_remote_capacities(image: SimulationImage, context: ContextModel) -> Seq<usize> {
    remote_capacities(image, context, image.flows.len() as nat)
}

fn derived_remote_capacities(image: &SimulationImage, context: &CapacityContext) -> (capacities:
    Vec<usize>)
    requires
        flow_references_valid(*image),
        topology_valid(*image),
        context_of(*image, context@),
        hop_bounds_defined(*image, context@),
    ensures
        capacities@ == spec_remote_capacities(*image, context@),
{
    let mut capacities: Vec<usize> = Vec::new();
    while capacities.len() < image.nodes.len()
        invariant
            capacities.len() <= image.nodes.len(),
            forall|i: int| 0 <= i < capacities.len() ==> capacities[i] == 2,
        decreases image.nodes.len() - capacities.len(),
    {
        capacities.push(2);
    }
    assert(capacities@ == remote_capacities(*image, context@, 0));
    let mut flow: usize = 0;
    while flow < image.flows.len()
        invariant
            flow_references_valid(*image),
            topology_valid(*image),
            context_of(*image, context@),
            hop_bounds_defined(*image, context@),
            flow <= image.flows.len(),
            capacities.len() == image.nodes.len(),
            capacities@ == remote_capacities(*image, context@, flow as nat),
        decreases image.flows.len() - flow,
    {
        let data_count = context.packet_counts[flow].saturating_sub(context.feedback_counts[flow]);
        let feedback_count = context.feedback_counts[flow];
        let ghost start = capacities@;
        let mut direction: usize = 0;
        while direction < 2
            invariant
                flow_references_valid(*image),
                topology_valid(*image),
                context_of(*image, context@),
                hop_bounds_defined(*image, context@),
                flow < image.flows.len(),
                direction <= 2,
                capacities.len() == image.nodes.len(),
                data_count == direction_count(context@, flow as int, true),
                feedback_count == direction_count(context@, flow as int, false),
                capacities@ == if direction == 0 {
                    start
                } else if direction == 1 {
                    remote_additions(
                        *image,
                        context@,
                        flow as int,
                        true,
                        route_of(*image, flow as int, true).len(),
                        start,
                    )
                } else {
                    remote_additions(
                        *image,
                        context@,
                        flow as int,
                        false,
                        route_of(*image, flow as int, false).len(),
                        remote_additions(
                            *image,
                            context@,
                            flow as int,
                            true,
                            route_of(*image, flow as int, true).len(),
                            start,
                        ),
                    )
                },
            decreases 2 - direction,
        {
            let data = direction == 0;
            let count = if data { data_count } else { feedback_count };
            let route = if data {
                &image.flows[flow].route
            } else {
                &image.flows[flow].reverse_route
            };
            assert(route@ == route_of(*image, flow as int, data));
            let ghost entry = capacities@;
            let mut hop: usize = 0;
            while hop < route.len()
                invariant
                    flow_references_valid(*image),
                    topology_valid(*image),
                    context_of(*image, context@),
                    hop_bounds_defined(*image, context@),
                    flow < image.flows.len(),
                    route@ == route_of(*image, flow as int, data),
                    count == direction_count(context@, flow as int, data),
                    hop <= route.len(),
                    capacities.len() == image.nodes.len(),
                    capacities@ == remote_additions(
                        *image,
                        context@,
                        flow as int,
                        data,
                        hop as nat,
                        entry,
                    ),
                decreases route.len() - hop,
            {
                proof {
                    lemma_hop_target_valid(*image, flow as int, data, hop as int);
                    lemma_hop_defined(*image, context@, flow as int, data, hop as int);
                }
                let link = route[hop];
                let producer = image.links[link.0 as usize].source.0 as usize;
                let bound = flow_link_round_bound(image, context, flow, count, data, link);
                let raised = capacities[producer].saturating_add(bound);
                capacities.set(producer, raised);
                hop += 1;
            }
            direction += 1;
        }
        flow += 1;
    }
    capacities
}

// ---------------------------------------------------------------------------------------------
// Channel streams.

/// Index of the last declared channel that carries `link` into `target`.
pub open spec fn channel_for(
    channels: Seq<crate::image::RemoteChannel>,
    link: LinkId,
    target: NodeId,
) -> Option<int>
    decreases channels.len(),
{
    if channels.len() == 0 {
        None
    } else if channels.last().link == link && channels.last().target == target {
        Some(channels.len() - 1)
    } else {
        channel_for(channels.drop_last(), link, target)
    }
}

/// Packets and smallest serialization gathered per channel.
pub struct ChannelLoad {
    pub packets: Seq<usize>,
    pub serialization: Seq<Option<u64>>,
}

pub open spec fn channel_hop_step(
    image: SimulationImage,
    context: ContextModel,
    flow: int,
    data: bool,
    hop: int,
    load: ChannelLoad,
) -> Result<ChannelLoad, (LinkId, NodeId)> {
    let link = route_of(image, flow, data)[hop];
    let target = hop_target(image, flow, data, hop);
    match channel_for(image.channels@, link, target) {
        None => Err((link, target)),
        Some(channel) => {
            let count = direction_count(context, flow, data);
            let serialization = hop_serialization(image, context, flow, data, link)->Ok_0;
            Ok(
                ChannelLoad {
                    packets: load.packets.update(
                        channel,
                        load.packets[channel].saturating_add(count),
                    ),
                    serialization: load.serialization.update(
                        channel,
                        Some(
                            match load.serialization[channel] {
                                None => serialization,
                                Some(current) => u64_min(current, serialization),
                            },
                        ),
                    ),
                },
            )
        },
    }
}

pub open spec fn channel_route_load(
    image: SimulationImage,
    context: ContextModel,
    flow: int,
    data: bool,
    hops: nat,
    load: ChannelLoad,
) -> Result<ChannelLoad, (LinkId, NodeId)>
    decreases hops,
{
    if hops == 0 {
        Ok(load)
    } else {
        match channel_route_load(image, context, flow, data, (hops - 1) as nat, load) {
            Err(missing) => Err(missing),
            Ok(load) => channel_hop_step(image, context, flow, data, hops - 1, load),
        }
    }
}

/// One direction of a flow adds its packets to every channel its route crosses.
pub open spec fn channel_direction_load(
    image: SimulationImage,
    context: ContextModel,
    flow: int,
    data: bool,
    load: ChannelLoad,
) -> Result<ChannelLoad, (LinkId, NodeId)> {
    if direction_count(context, flow, data) == 0 {
        Ok(load)
    } else {
        channel_route_load(image, context, flow, data, route_of(image, flow, data).len(), load)
    }
}

pub open spec fn channel_loads(image: SimulationImage, context: ContextModel, flows: nat) -> Result<
    ChannelLoad,
    (LinkId, NodeId),
>
    decreases flows,
{
    if flows == 0 {
        Ok(
            ChannelLoad {
                packets: zero_counts(image.channels.len() as nat),
                serialization: Seq::new(image.channels.len() as nat, |i: int| None::<u64>),
            },
        )
    } else {
        match channel_loads(image, context, (flows - 1) as nat) {
            Err(missing) => Err(missing),
            Ok(load) => match channel_direction_load(image, context, flows - 1, true, load) {
                Err(missing) => Err(missing),
                Ok(load) => channel_direction_load(image, context, flows - 1, false, load),
            },
        }
    }
}

/// Stream records of one channel: its packets capped by a lookahead's worth of emissions plus
/// those in flight, and two spare slots; an unused channel keeps two slots.
pub open spec fn channel_capacity(
    image: SimulationImage,
    context: ContextModel,
    channel: int,
    load: ChannelLoad,
) -> usize {
    match load.serialization[channel] {
        None => 2,
        Some(serialization) => {
            let packets = load.packets[channel];
            let horizon = match context.lookahead {
                None => packets,
                Some(lookahead) => sat(
                    ceil_div(lookahead as nat, serialization as nat) as int,
                ).saturating_add(1),
            };
            let link = image.channels[channel].link;
            let residency = sat(
                ceil_div(
                    image.links[link.0 as int].propagation_ns as nat,
                    serialization as nat,
                ) as int,
            );
            let reach = horizon.saturating_add(residency);
            (if packets <= reach { packets } else { reach }).saturating_add(2)
        },
    }
}

pub open spec fn spec_channel_stream_capacities(image: SimulationImage, context: ContextModel) -> Result<
    Seq<usize>,
    (LinkId, NodeId),
> {
    match channel_loads(image, context, image.flows.len() as nat) {
        Err(missing) => Err(missing),
        Ok(load) => Ok(
            Seq::new(
                image.channels.len() as nat,
                |channel: int| channel_capacity(image, context, channel, load),
            ),
        ),
    }
}

fn find_channel(image: &SimulationImage, link: LinkId, target: NodeId) -> (channel: Option<usize>)
    ensures
        match channel {
            Some(index) => channel_for(image.channels@, link, target) == Some(index as int),
            None => channel_for(image.channels@, link, target) is None,
        },
        channel_for(image.channels@, link, target) is Some ==> channel_for(
            image.channels@,
            link,
            target,
        )->0 < image.channels.len(),
{
    let mut index: usize = image.channels.len();
    assert(image.channels@.take(index as int) == image.channels@);
    proof {
        lemma_channel_for_bounded(image.channels@, link, target);
    }
    while index > 0
        invariant
            index <= image.channels.len(),
            channel_for(image.channels@, link, target) == channel_for(
                image.channels@.take(index as int),
                link,
                target,
            ),
        decreases index,
    {
        let channel = image.channels[index - 1];
        assert(image.channels@.take(index as int).drop_last() == image.channels@.take(
            index as int - 1,
        ));
        assert(image.channels@.take(index as int).last() == channel);
        if channel.link == link && channel.target == target {
            return Some(index - 1);
        }
        index -= 1;
    }
    None
}

proof fn lemma_channel_for_bounded(
    channels: Seq<crate::image::RemoteChannel>,
    link: LinkId,
    target: NodeId,
)
    ensures
        channel_for(channels, link, target) is Some ==> 0 <= channel_for(
            channels,
            link,
            target,
        )->0 < channels.len(),
    decreases channels.len(),
{
    if channels.len() > 0 {
        lemma_channel_for_bounded(channels.drop_last(), link, target);
    }
}

/// Channel loads stay positive where recorded.
pub open spec fn load_valid(load: ChannelLoad, channel_count: nat) -> bool {
    &&& load.packets.len() == channel_count
    &&& load.serialization.len() == channel_count
    &&& forall|channel: int|
        0 <= channel < channel_count && (#[trigger] load.serialization[channel]) is Some
            ==> load.serialization[channel]->0 > 0
}

fn derived_channel_stream_capacities(image: &SimulationImage, context: &CapacityContext) -> (capacities:
    Result<Vec<usize>, DeviceSizingError>)
    requires
        flow_references_valid(*image),
        topology_valid(*image),
        context_of(*image, context@),
        hop_bounds_defined(*image, context@),
    ensures
        match capacities {
            Ok(capacities) => spec_channel_stream_capacities(*image, context@) == Ok::<
                Seq<usize>,
                (LinkId, NodeId),
            >(capacities@),
            Err(error) => exists|link: LinkId, target: NodeId|
                spec_channel_stream_capacities(*image, context@) == Err::<
                    Seq<usize>,
                    (LinkId, NodeId),
                >((link, target)) && error == DeviceSizingError(
                    SizingFault::MissingStreamClassification { link, target },
                ),
        },
{
    let channel_count = image.channels.len();
    let mut packets: Vec<usize> = Vec::new();
    let mut minima: Vec<Option<u64>> = Vec::new();
    while packets.len() < channel_count
        invariant
            packets.len() <= channel_count,
            minima.len() == packets.len(),
            forall|i: int| 0 <= i < packets.len() ==> packets[i] == 0 && minima[i] == None::<u64>,
        decreases channel_count - packets.len(),
    {
        packets.push(0);
        minima.push(None);
    }
    proof {
        assert(packets@ == zero_counts(channel_count as nat));
        assert(minima@ =~= Seq::new(channel_count as nat, |i: int| None::<u64>));
    }
    let mut flow: usize = 0;
    while flow < image.flows.len()
        invariant
            flow_references_valid(*image),
            topology_valid(*image),
            context_of(*image, context@),
            hop_bounds_defined(*image, context@),
            channel_count == image.channels.len(),
            flow <= image.flows.len(),
            channel_loads(*image, context@, flow as nat) == Ok::<ChannelLoad, (LinkId, NodeId)>(
                ChannelLoad { packets: packets@, serialization: minima@ },
            ),
            load_valid(ChannelLoad { packets: packets@, serialization: minima@ }, channel_count as nat),
        decreases image.flows.len() - flow,
    {
        let ghost entry = ChannelLoad { packets: packets@, serialization: minima@ };
        let mut direction: usize = 0;
        while direction < 2
            invariant
                flow_references_valid(*image),
                topology_valid(*image),
                context_of(*image, context@),
                hop_bounds_defined(*image, context@),
                channel_count == image.channels.len(),
                flow < image.flows.len(),
                direction <= 2,
                channel_loads(*image, context@, flow as nat) == Ok::<ChannelLoad, (LinkId, NodeId)>(
                    entry,
                ),
                load_valid(
                    ChannelLoad { packets: packets@, serialization: minima@ },
                    channel_count as nat,
                ),
                (if direction == 0 {
                    Ok::<ChannelLoad, (LinkId, NodeId)>(entry)
                } else if direction == 1 {
                    channel_direction_load(*image, context@, flow as int, true, entry)
                } else {
                    match channel_direction_load(*image, context@, flow as int, true, entry) {
                        Err(missing) => Err(missing),
                        Ok(load) => channel_direction_load(
                            *image,
                            context@,
                            flow as int,
                            false,
                            load,
                        ),
                    }
                }) == Ok::<ChannelLoad, (LinkId, NodeId)>(
                    ChannelLoad { packets: packets@, serialization: minima@ },
                ),
            decreases 2 - direction,
        {
            let data = direction == 0;
            let count = if data {
                context.packet_counts[flow].saturating_sub(context.feedback_counts[flow])
            } else {
                context.feedback_counts[flow]
            };
            assert(count == direction_count(context@, flow as int, data));
            let ghost start = ChannelLoad { packets: packets@, serialization: minima@ };
            if count > 0 {
                let route = if data {
                    &image.flows[flow].route
                } else {
                    &image.flows[flow].reverse_route
                };
                assert(route@ == route_of(*image, flow as int, data));
                let mut hop: usize = 0;
                while hop < route.len()
                    invariant
                        flow_references_valid(*image),
                        topology_valid(*image),
                        context_of(*image, context@),
                        hop_bounds_defined(*image, context@),
                        channel_count == image.channels.len(),
                        flow < image.flows.len(),
                        route@ == route_of(*image, flow as int, data),
                        count == direction_count(context@, flow as int, data),
                        count > 0,
                        direction < 2,
                        data == (direction == 0),
                        channel_loads(*image, context@, flow as nat) == Ok::<
                            ChannelLoad,
                            (LinkId, NodeId),
                        >(entry),
                        (if direction == 0 {
                            Ok::<ChannelLoad, (LinkId, NodeId)>(entry)
                        } else {
                            channel_direction_load(*image, context@, flow as int, true, entry)
                        }) == Ok::<ChannelLoad, (LinkId, NodeId)>(start),
                        hop <= route.len(),
                        load_valid(
                            ChannelLoad { packets: packets@, serialization: minima@ },
                            channel_count as nat,
                        ),
                        channel_route_load(*image, context@, flow as int, data, hop as nat, start)
                            == Ok::<ChannelLoad, (LinkId, NodeId)>(
                            ChannelLoad { packets: packets@, serialization: minima@ },
                        ),
                    decreases route.len() - hop,
                {
                    proof {
                        lemma_hop_target_valid(*image, flow as int, data, hop as int);
                        lemma_hop_defined(*image, context@, flow as int, data, hop as int);
                    }
                    let link = route[hop];
                    let target = if hop + 1 < route.len() {
                        image.links[route[hop + 1].0 as usize].source
                    } else if data {
                        image.flows[flow].target
                    } else {
                        image.flows[flow].source
                    };
                    assert(target == hop_target(*image, flow as int, data, hop as int));
                    let channel = match find_channel(image, link, target) {
                        Some(channel) => channel,
                        None => {
                            proof {
                                lemma_channel_loads_stay_err(
                                    *image,
                                    context@,
                                    flow,
                                    direction,
                                    hop,
                                    entry,
                                    start,
                                    link,
                                    target,
                                );
                            }
                            return Err(
                                DeviceSizingError(
                                    SizingFault::MissingStreamClassification { link, target },
                                ),
                            );
                        },
                    };
                    let raised = packets[channel].saturating_add(count);
                    packets.set(channel, raised);
                    let serialization = flow_link_serialization_ns(image, context, flow, data, link);
                    let least = match minima[channel] {
                        None => serialization,
                        Some(current) => if current <= serialization {
                            current
                        } else {
                            serialization
                        },
                    };
                    minima.set(channel, Some(least));
                    hop += 1;
                }
            }
            direction += 1;
        }
        flow += 1;
    }
    let ghost load = ChannelLoad { packets: packets@, serialization: minima@ };
    let mut capacities: Vec<usize> = Vec::new();
    let mut channel: usize = 0;
    while channel < channel_count
        invariant
            topology_valid(*image),
            context_of(*image, context@),
            channel_count == image.channels.len(),
            load == (ChannelLoad { packets: packets@, serialization: minima@ }),
            load_valid(load, channel_count as nat),
            channel <= channel_count,
            capacities.len() == channel,
            forall|c: int|
                0 <= c < channel ==> capacities[c] == channel_capacity(*image, context@, c, load),
        decreases channel_count - channel,
    {
        let capacity = match minima[channel] {
            None => 2,
            Some(serialization) => {
                let count = packets[channel];
                let horizon = match context.lookahead {
                    None => count,
                    Some(lookahead) => u64_to_usize_saturating(
                        ceil_div_u64(lookahead, serialization),
                    ).saturating_add(1),
                };
                let link = image.channels[channel].link;
                let residency = u64_to_usize_saturating(
                    ceil_div_u64(image.links[link.0 as usize].propagation_ns, serialization),
                );
                let reach = horizon.saturating_add(residency);
                (if count <= reach {
                    count
                } else {
                    reach
                }).saturating_add(2)
            },
        };
        capacities.push(capacity);
        channel += 1;
    }
    proof {
        assert(capacities@ == Seq::new(
            image.channels.len() as nat,
            |c: int| channel_capacity(*image, context@, c, load),
        ));
    }
    Ok(capacities)
}

proof fn lemma_channel_loads_stay_err(
    image: SimulationImage,
    context: ContextModel,
    flow: usize,
    direction: usize,
    hop: usize,
    entry: ChannelLoad,
    start: ChannelLoad,
    link: LinkId,
    target: NodeId,
)
    requires
        flow < image.flows.len(),
        direction < 2,
        channel_loads(image, context, flow as nat) == Ok::<ChannelLoad, (LinkId, NodeId)>(entry),
        (if direction == 0 {
            Ok::<ChannelLoad, (LinkId, NodeId)>(entry)
        } else {
            channel_direction_load(image, context, flow as int, true, entry)
        }) == Ok::<ChannelLoad, (LinkId, NodeId)>(start),
        direction_count(context, flow as int, direction == 0) > 0,
        hop < route_of(image, flow as int, direction == 0).len(),
        channel_route_load(image, context, flow as int, direction == 0, hop as nat, start) is Ok,
        link == route_of(image, flow as int, direction == 0)[hop as int],
        target == hop_target(image, flow as int, direction == 0, hop as int),
        channel_for(image.channels@, link, target) is None,
    ensures
        spec_channel_stream_capacities(image, context) == Err::<Seq<usize>, (LinkId, NodeId)>(
            (link, target),
        ),
{
    let data = direction == 0;
    lemma_route_load_stays_err(
        image,
        context,
        flow as int,
        data,
        hop as nat + 1,
        start,
        (link, target),
    );
    assert(channel_direction_load(image, context, flow as int, data, start) == Err::<
        ChannelLoad,
        (LinkId, NodeId),
    >((link, target)));
    assert(channel_loads(image, context, flow as nat + 1) == Err::<ChannelLoad, (LinkId, NodeId)>(
        (link, target),
    ));
    lemma_channel_loads_later_err(image, context, flow as nat + 1, (link, target));
}

proof fn lemma_route_load_stays_err(
    image: SimulationImage,
    context: ContextModel,
    flow: int,
    data: bool,
    hops: nat,
    start: ChannelLoad,
    missing: (LinkId, NodeId),
)
    requires
        hops <= route_of(image, flow, data).len(),
        channel_route_load(image, context, flow, data, hops, start) == Err::<
            ChannelLoad,
            (LinkId, NodeId),
        >(missing),
    ensures
        channel_route_load(image, context, flow, data, route_of(image, flow, data).len(), start)
            == Err::<ChannelLoad, (LinkId, NodeId)>(missing),
    decreases route_of(image, flow, data).len() - hops,
{
    if hops < route_of(image, flow, data).len() {
        lemma_route_load_stays_err(image, context, flow, data, hops + 1, start, missing);
    }
}

proof fn lemma_channel_loads_later_err(
    image: SimulationImage,
    context: ContextModel,
    flows: nat,
    missing: (LinkId, NodeId),
)
    requires
        flows <= image.flows.len(),
        channel_loads(image, context, flows) == Err::<ChannelLoad, (LinkId, NodeId)>(missing),
    ensures
        spec_channel_stream_capacities(image, context) == Err::<Seq<usize>, (LinkId, NodeId)>(
            missing,
        ),
    decreases image.flows.len() - flows,
{
    if flows < image.flows.len() {
        lemma_channel_loads_later_err(image, context, flows + 1, missing);
    }
}

// ---------------------------------------------------------------------------------------------
// Stream state.

/// Some generator drives the flow.
pub open spec fn flow_has_generator(image: SimulationImage, flow: int) -> bool {
    exists|index: int|
        0 <= index < image_generators(image).len() && (#[trigger] image_generators(
            image,
        )[index]).flow.0 == flow
}

/// Channels delivering into `node`.
pub open spec fn channels_into(channels: Seq<crate::image::RemoteChannel>, node: int) -> nat
    decreases channels.len(),
{
    if channels.len() == 0 {
        0
    } else {
        channels_into(channels.drop_last(), node) + if channels.last().target.0 == node {
            1nat
        } else {
            0nat
        }
    }
}

/// Generator-driven flows among the first `flows` flows whose source is `node`.
pub open spec fn generated_flows_from(image: SimulationImage, node: int, flows: nat) -> nat
    decreases flows,
{
    if flows == 0 {
        0
    } else {
        generated_flows_from(image, node, (flows - 1) as nat) + if flow_has_generator(
            image,
            flows - 1,
        ) && image.flows[flows - 1].source.0 == node {
            1nat
        } else {
            0nat
        }
    }
}

/// Streams an LP drains: its inbound channels, its service stream and one generator stream
/// per generator-driven flow it sources.
pub open spec fn lp_stream_count(image: SimulationImage, node: int) -> nat {
    channels_into(image.channels@, node) + 1 + generated_flows_from(
        image,
        node,
        image.flows.len() as nat,
    )
}

/// The stream count of an LP as held in `usize`.
pub open spec fn lp_streams(image: SimulationImage, node: int) -> usize {
    sat(lp_stream_count(image, node) as int)
}

pub open spec fn lp_stream_total(image: SimulationImage, nodes: nat) -> nat
    decreases nodes,
{
    if nodes == 0 {
        0
    } else {
        lp_stream_total(image, (nodes - 1) as nat) + (lp_streams(image, nodes - 1) as nat)
    }
}

/// Active-stream list words: one entry per stream plus a sentinel, five words each.
pub open spec fn active_stream_total(image: SimulationImage, nodes: nat) -> nat
    decreases nodes,
{
    if nodes == 0 {
        0
    } else {
        active_stream_total(image, (nodes - 1) as nat) + (sat(
            lp_streams(image, nodes - 1).saturating_add(1) * ACTIVE_STREAM_ENTRY_WORDS,
        ) as nat)
    }
}

/// Two declared channels join the same pair of LPs.
pub open spec fn duplicate_channel_pair(image: SimulationImage) -> bool {
    exists|first: int, second: int|
        0 <= first < second < image.channels.len() && (#[trigger] image.channels[first]).source
            == (#[trigger] image.channels[second]).source && image.channels[first].target
            == image.channels[second].target
}

/// Words of the stream-state plane, or the first overflow or channel duplication found.
pub open spec fn spec_stream_state_words(image: SimulationImage, remote_staging_slots: usize) -> Result<
    usize,
    DeviceSizingError,
> {
    let nodes = image.nodes.len() as nat;
    let channels = image.channels.len() as nat;
    let streams = channels + nodes + image.flows.len();
    let total = streams * ARENA_META_WORDS + nodes * LP_STREAM_META_WORDS + lp_stream_total(
        image,
        nodes,
    ) + active_stream_total(image, nodes) + nodes * OUTBOUND_META_WORDS + channels
        * OUTBOUND_ENTRY_WORDS + channels * CHANNEL_BATCH_WORDS + remote_staging_slots + channels;
    if channels + nodes > usize::MAX {
        Err(overflow_of(SizingQuantity::ServiceStreamCount))
    } else if streams > usize::MAX {
        Err(overflow_of(SizingQuantity::GeneratorStreamCount))
    } else if lp_stream_total(image, nodes) > usize::MAX {
        Err(overflow_of(SizingQuantity::LpStreamList))
    } else if active_stream_total(image, nodes) > usize::MAX {
        Err(overflow_of(SizingQuantity::ActiveStreamList))
    } else if duplicate_channel_pair(image) {
        Err(DeviceSizingError(SizingFault::DuplicateChannelPair))
    } else if streams * ARENA_META_WORDS > usize::MAX {
        Err(overflow_of(SizingQuantity::StreamMetadata))
    } else if nodes * LP_STREAM_META_WORDS > usize::MAX {
        Err(overflow_of(SizingQuantity::LpStreamMetadata))
    } else if nodes * OUTBOUND_META_WORDS > usize::MAX {
        Err(overflow_of(SizingQuantity::OutboundMetadata))
    } else if channels * OUTBOUND_ENTRY_WORDS > usize::MAX {
        Err(overflow_of(SizingQuantity::OutboundChannelEntries))
    } else if channels * CHANNEL_BATCH_WORDS > usize::MAX {
        Err(overflow_of(SizingQuantity::ChannelBatches))
    } else if total > usize::MAX {
        Err(overflow_of(SizingQuantity::StreamState))
    } else {
        Ok(total as usize)
    }
}

fn generator_flags(image: &SimulationImage, generators: &Vec<FlowGeneratorState>) -> (flags: Vec<
    bool,
>)
    requires
        generators@ == image_generators(*image),
        flow_references_valid(*image),
    ensures
        flags.len() == image.flows.len(),
        forall|flow: int| 0 <= flow < image.flows.len() ==> flags[flow] == flow_has_generator(*image, flow),
{
    let mut flags: Vec<bool> = Vec::new();
    while flags.len() < image.flows.len()
        invariant
            flags.len() <= image.flows.len(),
            forall|i: int| 0 <= i < flags.len() ==> !flags[i],
        decreases image.flows.len() - flags.len(),
    {
        flags.push(false);
    }
    let mut index: usize = 0;
    while index < generators.len()
        invariant
            generators@ == image_generators(*image),
            flow_references_valid(*image),
            index <= generators.len(),
            flags.len() == image.flows.len(),
            forall|flow: int|
                0 <= flow < image.flows.len() ==> flags[flow] == exists|earlier: int|
                    0 <= earlier < index && (#[trigger] image_generators(*image)[earlier]).flow.0
                        == flow,
        decreases generators.len() - index,
    {
        let flow = generators[index].flow.0 as usize;
        assert(image_generators(*image)[index as int] == generators[index as int]);
        flags.set(flow, true);
        index += 1;
    }
    flags
}

fn count_lp_streams(image: &SimulationImage, flags: &Vec<bool>, node: usize) -> (count: usize)
    requires
        flags.len() == image.flows.len(),
        forall|flow: int| 0 <= flow < image.flows.len() ==> flags[flow] == flow_has_generator(*image, flow),
    ensures
        count == lp_streams(*image, node as int),
{
    let mut inbound: usize = 0;
    let mut index: usize = 0;
    while index < image.channels.len()
        invariant
            index <= image.channels.len(),
            inbound == channels_into(image.channels@.take(index as int), node as int),
            inbound <= index,
        decreases image.channels.len() - index,
    {
        assert(image.channels@.take(index as int + 1).drop_last() == image.channels@.take(
            index as int,
        ));
        if image.channels[index].target.0 == node as u64 {
            inbound += 1;
        }
        index += 1;
    }
    assert(image.channels@.take(index as int) == image.channels@);
    let mut sourced: usize = 0;
    let mut flow: usize = 0;
    while flow < image.flows.len()
        invariant
            flags.len() == image.flows.len(),
            forall|f: int| 0 <= f < image.flows.len() ==> flags[f] == flow_has_generator(*image, f),
            flow <= image.flows.len(),
            sourced == generated_flows_from(*image, node as int, flow as nat),
            sourced <= flow,
        decreases image.flows.len() - flow,
    {
        if flags[flow] && image.flows[flow].source.0 == node as u64 {
            sourced += 1;
        }
        flow += 1;
    }
    inbound.saturating_add(1).saturating_add(sourced)
}

fn has_duplicate_channel_pair(image: &SimulationImage) -> (duplicate: bool)
    ensures
        duplicate == duplicate_channel_pair(*image),
{
    let mut second: usize = 0;
    while second < image.channels.len()
        invariant
            second <= image.channels.len(),
            forall|a: int, b: int|
                0 <= a < b < second ==> !((#[trigger] image.channels[a]).source
                    == (#[trigger] image.channels[b]).source && image.channels[a].target
                    == image.channels[b].target),
        decreases image.channels.len() - second,
    {
        let mut first: usize = 0;
        while first < second
            invariant
                first <= second,
                second < image.channels.len(),
                forall|a: int, b: int|
                    0 <= a < b < second ==> !((#[trigger] image.channels[a]).source
                        == (#[trigger] image.channels[b]).source && image.channels[a].target
                        == image.channels[b].target),
                forall|a: int|
                    0 <= a < first ==> !((#[trigger] image.channels[a]).source
                        == image.channels[second as int].source && image.channels[a].target
                        == image.channels[second as int].target),
            decreases second - first,
        {
            if image.channels[first].source == image.channels[second].source
                && image.channels[first].target == image.channels[second].target {
                return true;
            }
            first += 1;
        }
        second += 1;
    }
    false
}

/// Words of the stream-state plane.
fn stream_state_words(
    image: &SimulationImage,
    generators: &Vec<FlowGeneratorState>,
    remote_staging_slots: usize,
) -> (words: Result<usize, DeviceSizingError>)
    requires
        generators@ == image_generators(*image),
        flow_references_valid(*image),
    ensures
        words == spec_stream_state_words(*image, remote_staging_slots),
{
    let node_count = image.nodes.len();
    let channel_count = image.channels.len();
    let generator_base = match channel_count.checked_add(node_count) {
        Some(base) => base,
        None => return Err(overflow(SizingQuantity::ServiceStreamCount)),
    };
    let stream_count = match generator_base.checked_add(image.flows.len()) {
        Some(count) => count,
        None => return Err(overflow(SizingQuantity::GeneratorStreamCount)),
    };
    let flags = generator_flags(image, generators);
    let mut id_words: usize = 0;
    let mut active_words: usize = 0;
    let mut id_overflow = false;
    let mut active_overflow = false;
    let mut node: usize = 0;
    while node < node_count
        invariant
            node_count == image.nodes.len(),
            flags.len() == image.flows.len(),
            forall|flow: int| 0 <= flow < image.flows.len() ==> flags[flow] == flow_has_generator(*image, flow),
            node <= node_count,
            !id_overflow ==> id_words == lp_stream_total(*image, node as nat),
            id_overflow <==> lp_stream_total(*image, node as nat) > usize::MAX,
            !active_overflow ==> active_words == active_stream_total(*image, node as nat),
            active_overflow <==> active_stream_total(*image, node as nat) > usize::MAX,
        decreases node_count - node,
    {
        let count = count_lp_streams(image, &flags, node);
        if !id_overflow {
            match id_words.checked_add(count) {
                Some(next) => id_words = next,
                None => id_overflow = true,
            }
        }
        if !active_overflow {
            match active_words.checked_add(
                saturating_mul_usize(count.saturating_add(1), ACTIVE_STREAM_ENTRY_WORDS),
            ) {
                Some(next) => active_words = next,
                None => active_overflow = true,
            }
        }
        node += 1;
    }
    if id_overflow {
        return Err(overflow(SizingQuantity::LpStreamList));
    }
    if active_overflow {
        return Err(overflow(SizingQuantity::ActiveStreamList));
    }
    if has_duplicate_channel_pair(image) {
        return Err(DeviceSizingError(SizingFault::DuplicateChannelPair));
    }
    let parts: [Result<usize, DeviceSizingError>; 5] = [
        checked_product(stream_count, ARENA_META_WORDS, SizingQuantity::StreamMetadata),
        checked_product(node_count, LP_STREAM_META_WORDS, SizingQuantity::LpStreamMetadata),
        checked_product(node_count, OUTBOUND_META_WORDS, SizingQuantity::OutboundMetadata),
        checked_product(channel_count, OUTBOUND_ENTRY_WORDS, SizingQuantity::OutboundChannelEntries),
        checked_product(channel_count, CHANNEL_BATCH_WORDS, SizingQuantity::ChannelBatches),
    ];
    let stream_meta = match parts[0] { Ok(v) => v, Err(e) => return Err(e) };
    let lp_meta = match parts[1] { Ok(v) => v, Err(e) => return Err(e) };
    let outbound_meta = match parts[2] { Ok(v) => v, Err(e) => return Err(e) };
    let outbound_entries = match parts[3] { Ok(v) => v, Err(e) => return Err(e) };
    let batches = match parts[4] { Ok(v) => v, Err(e) => return Err(e) };
    let words: [usize; 9] = [
        stream_meta,
        lp_meta,
        id_words,
        active_words,
        outbound_meta,
        outbound_entries,
        batches,
        remote_staging_slots,
        channel_count,
    ];
    let total = checked_sum(&words, SizingQuantity::StreamState);
    proof {
        reveal_with_fuel(seq_sum, 10);
    }
    total
}

// ---------------------------------------------------------------------------------------------
// Inbound producers.

/// `(producer, target)` LP pairs of every hop of one direction of a flow.
pub open spec fn direction_pairs(image: SimulationImage, flow: int, data: bool) -> Seq<(u64, u64)> {
    Seq::new(
        route_of(image, flow, data).len(),
        |hop: int|
            (
                image.links[route_of(image, flow, data)[hop].0 as int].source.0,
                hop_target(image, flow, data, hop).0,
            ),
    )
}

/// `(producer, target)` LP pairs of every hop of the first `flows` flows.
pub open spec fn hop_pairs(image: SimulationImage, flows: nat) -> Seq<(u64, u64)>
    decreases flows,
{
    if flows == 0 {
        Seq::empty()
    } else {
        hop_pairs(image, (flows - 1) as nat) + direction_pairs(image, flows - 1, true)
            + direction_pairs(image, flows - 1, false)
    }
}

/// LPs that deliver packets into `target`.
pub open spec fn inbound_producers(image: SimulationImage, target: u64) -> Set<u64> {
    Set::new(
        |producer: u64|
            exists|index: int|
                0 <= index < hop_pairs(image, image.flows.len() as nat).len() && #[trigger] hop_pairs(
                    image,
                    image.flows.len() as nat,
                )[index] == (producer, target),
    )
}

pub open spec fn inbound_total(image: SimulationImage, nodes: nat) -> nat
    decreases nodes,
{
    if nodes == 0 {
        0
    } else {
        inbound_total(image, (nodes - 1) as nat) + inbound_producers(image, (nodes - 1) as u64).len()
    }
}

/// Inbound-producer words: the distinct producers of every LP, saturating.
pub open spec fn spec_inbound_producer_words(image: SimulationImage) -> usize {
    sat(inbound_total(image, image.nodes.len() as nat) as int)
}

pub(crate) fn collect_hop_pairs(image: &SimulationImage) -> (pairs: Vec<(u64, u64)>)
    requires
        flow_references_valid(*image),
        topology_valid(*image),
    ensures
        pairs@ == hop_pairs(*image, image.flows.len() as nat),
{
    let mut pairs: Vec<(u64, u64)> = Vec::new();
    let mut flow: usize = 0;
    while flow < image.flows.len()
        invariant
            flow_references_valid(*image),
            topology_valid(*image),
            flow <= image.flows.len(),
            pairs@ == hop_pairs(*image, flow as nat),
        decreases image.flows.len() - flow,
    {
        let ghost entry = pairs@;
        let mut direction: usize = 0;
        while direction < 2
            invariant
                flow_references_valid(*image),
                topology_valid(*image),
                flow < image.flows.len(),
                direction <= 2,
                pairs@ == if direction == 0 {
                    entry
                } else if direction == 1 {
                    entry + direction_pairs(*image, flow as int, true)
                } else {
                    entry + direction_pairs(*image, flow as int, true) + direction_pairs(
                        *image,
                        flow as int,
                        false,
                    )
                },
            decreases 2 - direction,
        {
            let data = direction == 0;
            let route = if data {
                &image.flows[flow].route
            } else {
                &image.flows[flow].reverse_route
            };
            assert(route@ == route_of(*image, flow as int, data));
            let ghost start = pairs@;
            let mut hop: usize = 0;
            while hop < route.len()
                invariant
                    flow_references_valid(*image),
                    topology_valid(*image),
                    flow < image.flows.len(),
                    route@ == route_of(*image, flow as int, data),
                    hop <= route.len(),
                    pairs@ == start + direction_pairs(*image, flow as int, data).take(hop as int),
                decreases route.len() - hop,
            {
                proof {
                    lemma_hop_target_valid(*image, flow as int, data, hop as int);
                }
                let producer = image.links[route[hop].0 as usize].source.0;
                let target = if hop + 1 < route.len() {
                    image.links[route[hop + 1].0 as usize].source
                } else if data {
                    image.flows[flow].target
                } else {
                    image.flows[flow].source
                };
                assert(target == hop_target(*image, flow as int, data, hop as int));
                pairs.push((producer, target.0));
                assert(direction_pairs(*image, flow as int, data).take(hop as int + 1)
                    == direction_pairs(*image, flow as int, data).take(hop as int).push(
                    (producer, target.0),
                ));
                hop += 1;
            }
            assert(direction_pairs(*image, flow as int, data).take(hop as int) == direction_pairs(
                *image,
                flow as int,
                data,
            ));
            direction += 1;
        }
        flow += 1;
    }
    pairs
}

/// Distinct producers delivering into `target`.
fn count_inbound_producers(pairs: &Vec<(u64, u64)>, target: u64, image: &SimulationImage) -> (count:
    usize)
    requires
        pairs@ == hop_pairs(*image, image.flows.len() as nat),
    ensures
        count == inbound_producers(*image, target).len(),
        inbound_producers(*image, target).finite(),
{
    let mut seen: Vec<u64> = Vec::new();
    let mut index: usize = 0;
    while index < pairs.len()
        invariant
            index <= pairs.len(),
            seen@.no_duplicates(),
            forall|producer: u64|
                seen@.contains(producer) <==> exists|earlier: int|
                    0 <= earlier < index && #[trigger] pairs@[earlier] == (producer, target),
        decreases pairs.len() - index,
    {
        let (producer, to) = pairs[index];
        if to == target {
            let mut found = false;
            let mut probe: usize = 0;
            while probe < seen.len()
                invariant
                    probe <= seen.len(),
                    found <==> exists|k: int| 0 <= k < probe && seen@[k] == producer,
                decreases seen.len() - probe,
            {
                if seen[probe] == producer {
                    found = true;
                }
                probe += 1;
            }
            if !found {
                proof {
                    assert(!seen@.contains(producer));
                }
                let ghost before = seen@;
                seen.push(producer);
                proof {
                    assert(pairs@[index as int] == (producer, target));
                    assert forall|p: u64| seen@.contains(p) <==> (before.contains(p) || p
                        == producer) by {
                        if seen@.contains(p) && p != producer {
                            let k = choose|k: int| 0 <= k < seen@.len() && seen@[k] == p;
                            assert(k < before.len());
                            assert(before[k] == p);
                        }
                        if before.contains(p) {
                            let k = choose|k: int| 0 <= k < before.len() && before[k] == p;
                            assert(seen@[k] == p);
                        }
                        if p == producer {
                            assert(seen@[before.len() as int] == p);
                        }
                    }
                    assert forall|p: u64| seen@.contains(p) <==> exists|earlier: int|
                        0 <= earlier < index + 1 && #[trigger] pairs@[earlier] == (p, target) by {
                        if p == producer {
                            assert(pairs@[index as int] == (p, target));
                        } else {
                            assert(before.contains(p) <==> exists|earlier: int|
                                0 <= earlier < index && #[trigger] pairs@[earlier] == (p, target));
                            if exists|earlier: int|
                                0 <= earlier < index + 1 && #[trigger] pairs@[earlier] == (p, target) {
                                let earlier = choose|earlier: int|
                                    0 <= earlier < index + 1 && #[trigger] pairs@[earlier] == (
                                    p,
                                    target,
                                );
                                assert(earlier != index as int);
                                assert(before.contains(p));
                            }
                            if before.contains(p) {
                                let earlier = choose|earlier: int|
                                    0 <= earlier < index && #[trigger] pairs@[earlier] == (p, target);
                                assert(0 <= earlier < index + 1 && pairs@[earlier] == (p, target));
                            }
                        }
                    }
                }
            } else {
                proof {
                    let k = choose|k: int| 0 <= k < probe && seen@[k] == producer;
                    assert(seen@.contains(producer));
                    assert(pairs@[index as int] == (producer, target));
                    assert forall|p: u64| seen@.contains(p) <==> exists|earlier: int|
                        0 <= earlier < index + 1 && #[trigger] pairs@[earlier] == (p, target) by {
                        if p == producer {
                            assert(pairs@[index as int] == (p, target));
                        } else {
                            if exists|earlier: int|
                                0 <= earlier < index + 1 && #[trigger] pairs@[earlier] == (p, target) {
                                let earlier = choose|earlier: int|
                                    0 <= earlier < index + 1 && #[trigger] pairs@[earlier] == (
                                    p,
                                    target,
                                );
                                assert(earlier != index as int);
                            }
                        }
                    }
                }
            }
        } else {
            proof {
                assert forall|p: u64| seen@.contains(p) <==> exists|earlier: int|
                    0 <= earlier < index + 1 && #[trigger] pairs@[earlier] == (p, target) by {
                    if exists|earlier: int| 0 <= earlier < index + 1 && #[trigger] pairs@[earlier]
                        == (p, target) {
                        let earlier = choose|earlier: int|
                            0 <= earlier < index + 1 && #[trigger] pairs@[earlier] == (p, target);
                        assert(earlier != index as int);
                    }
                }
            }
        }
        index += 1;
    }
    proof {
        assert(seen@.to_set() =~= inbound_producers(*image, target)) by {
            assert forall|p: u64| seen@.to_set().contains(p) <==> inbound_producers(
                *image,
                target,
            ).contains(p) by {
                if inbound_producers(*image, target).contains(p) {
                    let earlier = choose|earlier: int|
                        0 <= earlier < hop_pairs(*image, image.flows.len() as nat).len()
                            && #[trigger] hop_pairs(*image, image.flows.len() as nat)[earlier] == (
                        p,
                        target,
                    );
                    assert(pairs@[earlier] == (p, target));
                }
            }
        }
        seen@.unique_seq_to_set();
    }
    seen.len()
}

fn inbound_producer_words(image: &SimulationImage) -> (words: usize)
    requires
        flow_references_valid(*image),
        topology_valid(*image),
    ensures
        words == spec_inbound_producer_words(*image),
{
    let pairs = collect_hop_pairs(image);
    let mut total: usize = 0;
    let mut node: usize = 0;
    while node < image.nodes.len()
        invariant
            pairs@ == hop_pairs(*image, image.flows.len() as nat),
            node <= image.nodes.len(),
            total == sat(inbound_total(*image, node as nat) as int),
        decreases image.nodes.len() - node,
    {
        let count = count_inbound_producers(&pairs, node as u64, image);
        total = total.saturating_add(count);
        node += 1;
    }
    total
}

// ---------------------------------------------------------------------------------------------
// Packed TCP state.

/// Budgets of the flows of the first `count` TCP generators.
pub open spec fn tcp_record_total(
    generators: Seq<FlowGeneratorState>,
    packet_counts: Seq<usize>,
    count: nat,
) -> nat
    decreases count,
{
    if count == 0 {
        0
    } else {
        let generator = generators[count - 1];
        tcp_record_total(generators, packet_counts, (count - 1) as nat) + if generator.kind is Tcp {
            packet_counts[generator.flow.0 as int] as nat
        } else {
            0nat
        }
    }
}

pub open spec fn nat_max(a: nat, b: nat) -> nat {
    if a >= b { a } else { b }
}

/// Words of the packed TCP plane: receiver rows, range and ledger metadata, receive ranges and
/// ledger records for every TCP budget slot, and transition metadata; or the first overflow.
pub open spec fn spec_packed_tcp_state_words(image: SimulationImage, packet_counts: Seq<usize>) -> Result<
    usize,
    DeviceSizingError,
> {
    let generators = image_generators(image);
    let records = tcp_record_total(generators, packet_counts, generators.len());
    let flows = nat_max(image.flows.len() as nat, 1);
    let slots = nat_max(records, 1);
    let nodes = nat_max(image.nodes.len() as nat, 1);
    let total = flows * 4 + flows * ARENA_META_WORDS + slots * 2 + flows * ARENA_META_WORDS
        + slots * EVENT_WORDS + nodes * ARENA_META_WORDS;
    if records > usize::MAX {
        Err(overflow_of(SizingQuantity::TcpRecordSlots))
    } else if flows * 4 > usize::MAX {
        Err(overflow_of(SizingQuantity::TcpReceiverRows))
    } else if flows * ARENA_META_WORDS > usize::MAX {
        Err(overflow_of(SizingQuantity::TcpRangeMetadata))
    } else if slots * 2 > usize::MAX {
        Err(overflow_of(SizingQuantity::TcpReceiveRanges))
    } else if slots * EVENT_WORDS > usize::MAX {
        Err(overflow_of(SizingQuantity::TcpLedgerRecords))
    } else if nodes * ARENA_META_WORDS > usize::MAX {
        Err(overflow_of(SizingQuantity::TcpTransitionMetadata))
    } else if total > usize::MAX {
        Err(overflow_of(SizingQuantity::TcpStatePlane))
    } else {
        Ok(total as usize)
    }
}

fn packed_tcp_state_words(
    image: &SimulationImage,
    generators: &Vec<FlowGeneratorState>,
    packet_counts: &Vec<usize>,
) -> (words: Result<usize, DeviceSizingError>)
    requires
        generators@ == image_generators(*image),
        flow_references_valid(*image),
        packet_counts.len() == image.flows.len(),
    ensures
        words == spec_packed_tcp_state_words(*image, packet_counts@),
{
    let flow_count = if image.flows.len() >= 1 { image.flows.len() } else { 1 };
    let mut records: usize = 0;
    let mut index: usize = 0;
    while index < generators.len()
        invariant
            generators@ == image_generators(*image),
            flow_references_valid(*image),
            packet_counts.len() == image.flows.len(),
            index <= generators.len(),
            records == tcp_record_total(generators@, packet_counts@, index as nat),
        decreases generators.len() - index,
    {
        let generator = generators[index];
        assert(generator == image_generators(*image)[index as int]);
        if let FlowGeneratorKind::Tcp(_) = generator.kind {
            match records.checked_add(packet_counts[generator.flow.0 as usize]) {
                Some(next) => records = next,
                None => {
                    proof {
                        lemma_tcp_records_grow(generators@, packet_counts@, index as nat + 1);
                    }
                    return Err(overflow(SizingQuantity::TcpRecordSlots));
                },
            }
        }
        index += 1;
    }
    let slots = if records >= 1 { records } else { 1 };
    let node_count = if image.nodes.len() >= 1 { image.nodes.len() } else { 1 };
    let receiver_rows = match flow_count.checked_mul(4) {
        Some(value) => value,
        None => return Err(overflow(SizingQuantity::TcpReceiverRows)),
    };
    let range_meta = match flow_count.checked_mul(ARENA_META_WORDS) {
        Some(value) => value,
        None => return Err(overflow(SizingQuantity::TcpRangeMetadata)),
    };
    let ranges = match slots.checked_mul(2) {
        Some(value) => value,
        None => return Err(overflow(SizingQuantity::TcpReceiveRanges)),
    };
    let ledger_records = match slots.checked_mul(EVENT_WORDS) {
        Some(value) => value,
        None => return Err(overflow(SizingQuantity::TcpLedgerRecords)),
    };
    let transition_meta = match node_count.checked_mul(ARENA_META_WORDS) {
        Some(value) => value,
        None => return Err(overflow(SizingQuantity::TcpTransitionMetadata)),
    };
    let words: [usize; 6] = [
        receiver_rows,
        range_meta,
        ranges,
        range_meta,
        ledger_records,
        transition_meta,
    ];
    let total = checked_sum(&words, SizingQuantity::TcpStatePlane);
    proof {
        reveal_with_fuel(seq_sum, 7);
    }
    total
}

proof fn lemma_tcp_records_grow(
    generators: Seq<FlowGeneratorState>,
    packet_counts: Seq<usize>,
    count: nat,
)
    requires
        count <= generators.len(),
    ensures
        tcp_record_total(generators, packet_counts, count) <= tcp_record_total(
            generators,
            packet_counts,
            generators.len(),
        ),
    decreases generators.len() - count,
{
    if count < generators.len() {
        lemma_tcp_records_grow(generators, packet_counts, count + 1);
    }
}

// ---------------------------------------------------------------------------------------------
// The plan.

/// Name of each of the established planes, in plane order.
pub open spec fn plane_name(index: int) -> &'static str {
    if index == 0 { "control" }
    else if index == 1 { "params" }
    else if index == 2 { "node_state" }
    else if index == 3 { "generators" }
    else if index == 4 { "flows" }
    else if index == 5 { "routes" }
    else if index == 6 { "links" }
    else if index == 7 { "fel_meta" }
    else if index == 8 { "fel_records" }
    else if index == 9 { "queue_meta" }
    else if index == 10 { "queue_records" }
    else if index == 11 { "in_service" }
    else if index == 12 { "outbox" }
    else if index == 13 { "worklist" }
    else if index == 14 { "summary" }
    else if index == 15 { "observed" }
    else if index == 16 { "departures" }
    else if index == 17 { "arrivals" }
    else if index == 18 { "lp_state" }
    else if index == 19 { "remote_meta" }
    else if index == 20 { "remote_staging" }
    else if index == 21 { "observation_meta" }
    else if index == 22 { "inbound_meta" }
    else if index == 23 { "inbound_producers" }
    else if index == 24 { "merge_cursors" }
    else if index == 25 { "stream_state" }
    else if index == 26 { "stream_records" }
    else if index == 27 { "scheduler_state" }
    else { "tcp_state" }
}

fn plane_name_exec(index: usize) -> (name: &'static str)
    ensures
        name == plane_name(index as int),
{
    if index == 0 { "control" }
    else if index == 1 { "params" }
    else if index == 2 { "node_state" }
    else if index == 3 { "generators" }
    else if index == 4 { "flows" }
    else if index == 5 { "routes" }
    else if index == 6 { "links" }
    else if index == 7 { "fel_meta" }
    else if index == 8 { "fel_records" }
    else if index == 9 { "queue_meta" }
    else if index == 10 { "queue_records" }
    else if index == 11 { "in_service" }
    else if index == 12 { "outbox" }
    else if index == 13 { "worklist" }
    else if index == 14 { "summary" }
    else if index == 15 { "observed" }
    else if index == 16 { "departures" }
    else if index == 17 { "arrivals" }
    else if index == 18 { "lp_state" }
    else if index == 19 { "remote_meta" }
    else if index == 20 { "remote_staging" }
    else if index == 21 { "observation_meta" }
    else if index == 22 { "inbound_meta" }
    else if index == 23 { "inbound_producers" }
    else if index == 24 { "merge_cursors" }
    else if index == 25 { "stream_state" }
    else if index == 26 { "stream_records" }
    else if index == 27 { "scheduler_state" }
    else { "tcp_state" }
}

/// How the words of one plane are derived.
#[derive(Clone, Copy, Debug, PartialEq, Eq)]
pub enum WordRequest {
    /// A fixed count.
    Words(usize),
    /// `count * width`, raised to `floor`, or the overflow of `quantity`.
    Product { count: usize, width: usize, floor: usize, quantity: SizingQuantity },
    /// A count derived elsewhere, or the overflow it reported.
    Derived(Result<usize, SizingQuantity>),
}

pub open spec fn request_words(request: WordRequest) -> Result<usize, DeviceSizingError> {
    match request {
        WordRequest::Words(words) => Ok(words),
        WordRequest::Product { count, width, floor, quantity } => match spec_checked_product(
            count as nat,
            width as nat,
            quantity,
        ) {
            Err(error) => Err(error),
            Ok(words) => Ok(if words >= floor { words } else { floor }),
        },
        WordRequest::Derived(derived) => match derived {
            Err(quantity) => Err(overflow_of(quantity)),
            Ok(words) => Ok(words),
        },
    }
}

/// Words of every request in order, or the first failure.
pub open spec fn evaluate_requests(requests: Seq<WordRequest>) -> Result<Seq<usize>, DeviceSizingError>
    decreases requests.len(),
{
    if requests.len() == 0 {
        Ok(Seq::empty())
    } else {
        match evaluate_requests(requests.drop_last()) {
            Err(error) => Err(error),
            Ok(words) => match request_words(requests.last()) {
                Err(error) => Err(error),
                Ok(last) => Ok(words.push(last)),
            },
        }
    }
}

proof fn lemma_requests_stay_err(requests: Seq<WordRequest>, count: int, error: DeviceSizingError)
    requires
        0 <= count <= requests.len(),
        evaluate_requests(requests.take(count)) == Err::<Seq<usize>, DeviceSizingError>(error),
    ensures
        evaluate_requests(requests) == Err::<Seq<usize>, DeviceSizingError>(error),
    decreases requests.len() - count,
{
    if count < requests.len() {
        assert(requests.take(count + 1).drop_last() == requests.take(count));
        lemma_requests_stay_err(requests, count + 1, error);
    } else {
        assert(requests.take(count) == requests);
    }
}

fn evaluate_word_requests(requests: &Vec<WordRequest>) -> (words: Result<Vec<usize>, DeviceSizingError>)
    ensures
        match words {
            Ok(words) => evaluate_requests(requests@) == Ok::<Seq<usize>, DeviceSizingError>(words@)
                && words.len() == requests.len(),
            Err(error) => evaluate_requests(requests@) == Err::<Seq<usize>, DeviceSizingError>(error),
        },
{
    let mut words: Vec<usize> = Vec::new();
    let mut index: usize = 0;
    while index < requests.len()
        invariant
            index <= requests.len(),
            evaluate_requests(requests@.take(index as int)) == Ok::<Seq<usize>, DeviceSizingError>(
                words@,
            ),
            words.len() == index,
        decreases requests.len() - index,
    {
        assert(requests@.take(index as int + 1).drop_last() == requests@.take(index as int));
        let value = match requests[index] {
            WordRequest::Words(words) => Ok(words),
            WordRequest::Product { count, width, floor, quantity } => match checked_product(
                count,
                width,
                quantity,
            ) {
                Err(error) => Err(error),
                Ok(words) => Ok(if words >= floor { words } else { floor }),
            },
            WordRequest::Derived(derived) => match derived {
                Err(quantity) => Err(overflow(quantity)),
                Ok(words) => Ok(words),
            },
        };
        match value {
            Ok(value) => words.push(value),
            Err(error) => {
                proof {
                    lemma_requests_stay_err(requests@, index as int + 1, error);
                }
                return Err(error);
            },
        }
        index += 1;
    }
    assert(requests@.take(index as int) == requests@);
    Ok(words)
}

/// The values of a sizing report.
pub struct PlanModel {
    pub planes: Seq<DevicePlaneSizing>,
    pub total_device_bytes: usize,
    pub event_arenas: DeviceEventArenaSizing,
}

impl View for DeviceSizingReport {
    type V = PlanModel;

    open spec fn view(&self) -> PlanModel {
        PlanModel {
            planes: self.planes@,
            total_device_bytes: self.total_device_bytes,
            event_arenas: self.event_arenas,
        }
    }
}

/// The capacity context of an image, or the first failure deriving it.
pub open spec fn spec_context(image: SimulationImage) -> Result<ContextModel, DeviceSizingError> {
    match spec_flow_packet_counts(image) {
        None => Err(DeviceSizingError(SizingFault::DurationEndpointOverflow)),
        Some(counts) => match spec_source_queue_bounds(image, counts) {
            Err(error) => Err(DeviceSizingError(SizingFault::SourceSerialization(error))),
            Ok(bounds) => Ok(
                ContextModel {
                    packet_counts: counts,
                    feedback_counts: spec_feedback_packet_counts(image, counts),
                    source_queue_bounds: bounds,
                    minimum_data_sizes: spec_min_packet_sizes(image, true),
                    minimum_feedback_sizes: spec_min_packet_sizes(image, false),
                    lookahead: spec_lookahead(image.channels@),
                    generators: image_generators(image),
                },
            ),
        },
    }
}

impl CapacityContext {
    /// The capacity context of an image, or the first failure deriving it.
    fn new(image: &SimulationImage) -> (context: Result<CapacityContext, DeviceSizingError>)
        requires
            flow_references_valid(*image),
            topology_valid(*image),
            generator_budgets_defined(*image),
        ensures
            match context {
                Ok(context) => spec_context(*image) == Ok::<ContextModel, DeviceSizingError>(context@)
                    && context_of(*image, context@),
                Err(error) => spec_context(*image) == Err::<ContextModel, DeviceSizingError>(error),
            },
    {
        let generators = collect_generators(image);
        let packet_counts = match flow_packet_counts(image, &generators) {
            Ok(counts) => counts,
            Err(error) => return Err(error),
        };
        let feedback_counts = feedback_packet_counts(image, &generators, &packet_counts);
        let lookahead = minimum_lookahead(image);
        let minimum_data_sizes = min_packet_sizes(image, &generators, true);
        let minimum_feedback_sizes = min_packet_sizes(image, &generators, false);
        let source_queue_bounds = match source_queue_bounds(image, &packet_counts) {
            Ok(bounds) => bounds,
            Err(error) => return Err(error),
        };
        proof {
            lemma_source_bounds_len(*image, packet_counts@, image.flows.len() as nat);
        }
        Ok(
            CapacityContext {
                packet_counts,
                feedback_counts,
                source_queue_bounds,
                minimum_data_sizes,
                minimum_feedback_sizes,
                lookahead,
                generators,
            },
        )
    }
}

proof fn lemma_source_bounds_len(image: SimulationImage, counts: Seq<usize>, count: nat)
    ensures
        match source_queue_bounds_upto(image, counts, count) {
            Ok(bounds) => bounds.len() == count,
            Err(_) => true,
        },
    decreases count,
{
    if count > 0 {
        lemma_source_bounds_len(image, counts, (count - 1) as nat);
    }
}

/// Fallback-heap slots of every TCP sender's retransmission timers.
pub open spec fn tcp_timer_total(
    generators: Seq<FlowGeneratorState>,
    packet_counts: Seq<usize>,
    count: nat,
) -> nat
    decreases count,
{
    if count == 0 {
        0
    } else {
        let generator = generators[count - 1];
        tcp_timer_total(generators, packet_counts, (count - 1) as nat) + if generator.kind is Tcp {
            let budget = packet_counts[generator.flow.0 as int];
            (if budget >= 1 { budget } else { 1 }) as nat
        } else {
            0nat
        }
    }
}

/// Route words of the first `flows` flows: both routes of each.
pub open spec fn route_words_total(image: SimulationImage, flows: nat) -> nat
    decreases flows,
{
    if flows == 0 {
        0
    } else {
        (route_words_total(image, (flows - 1) as nat) + image.flows[flows - 1].route.len()
            + image.flows[flows - 1].reverse_route.len()) as nat
    }
}

/// Some host runs a TCP sender or receiver.
pub open spec fn tcp_image(image: SimulationImage) -> bool {
    exists|host: int|
        0 <= host < image.host_states.len() && {
            let state = #[trigger] image.host_states[host];
            state.tcp_receivers.len() > 0 || exists|index: int|
                0 <= index < state.generators.len() && (#[trigger] state.generators[index]).kind is Tcp
        }
}

pub open spec fn usize_max(a: usize, b: usize) -> usize {
    if a >= b { a } else { b }
}

/// The word requests of the 28 established planes.
pub open spec fn plan_requests(
    image: SimulationImage,
    queue_capacities: Seq<usize>,
    route_words: usize,
    fallback_slots: usize,
    queue_slots: usize,
    remote_bound: usize,
    remote_staging_slots: usize,
    inbound_words: usize,
    stream_state: usize,
    stream_record_slots: usize,
) -> Seq<WordRequest> {
    let nodes = image.nodes.len() as usize;
    let flows = image.flows.len() as usize;
    let links = image.links.len() as usize;
    seq![
        WordRequest::Words(CONTROL_WORDS),
        WordRequest::Words(PARAM_WORDS),
        WordRequest::Product { count: nodes, width: NODE_WORDS, floor: 0, quantity: SizingQuantity::NodeStatePlane },
        WordRequest::Product { count: usize_max(flows, 1), width: GENERATOR_WORDS, floor: 0, quantity: SizingQuantity::GeneratorPlane },
        WordRequest::Product { count: usize_max(flows, 1), width: FLOW_WORDS, floor: 0, quantity: SizingQuantity::FlowPlane },
        WordRequest::Words(route_words),
        WordRequest::Product { count: usize_max(links, 1), width: LINK_WORDS, floor: 0, quantity: SizingQuantity::LinkPlane },
        WordRequest::Product { count: nodes, width: ARENA_META_WORDS, floor: 0, quantity: SizingQuantity::FelMetadataPlane },
        WordRequest::Product { count: fallback_slots, width: EVENT_WORDS, floor: 1, quantity: SizingQuantity::FelRecordPlane },
        WordRequest::Product { count: nodes, width: ARENA_META_WORDS, floor: 0, quantity: SizingQuantity::QueueMetadataPlane },
        WordRequest::Product { count: queue_slots, width: EVENT_WORDS, floor: 1, quantity: SizingQuantity::QueueRecordPlane },
        WordRequest::Product { count: nodes, width: EVENT_WORDS, floor: 1, quantity: SizingQuantity::InServicePlane },
        WordRequest::Product { count: usize_max(remote_bound, 1), width: EVENT_WORDS, floor: 0, quantity: SizingQuantity::OutboxPlane },
        WordRequest::Words(usize_max(nodes, 1)),
        WordRequest::Product { count: usize_max(nodes, 1), width: 24, floor: 0, quantity: SizingQuantity::SummaryPlane },
        WordRequest::Words(1),
        WordRequest::Words(1),
        WordRequest::Words(1),
        WordRequest::Product { count: usize_max(nodes, 1), width: LP_STATE_WORDS, floor: 0, quantity: SizingQuantity::LpStatePlane },
        WordRequest::Product { count: nodes, width: ARENA_META_WORDS, floor: 0, quantity: SizingQuantity::RemoteMetadataPlane },
        WordRequest::Product { count: remote_staging_slots, width: EVENT_WORDS, floor: 1, quantity: SizingQuantity::RemoteStagingPlane },
        WordRequest::Product { count: nodes, width: OBSERVATION_META_WORDS, floor: 0, quantity: SizingQuantity::ObservationMetadataPlane },
        WordRequest::Product { count: nodes, width: INBOUND_META_WORDS, floor: 0, quantity: SizingQuantity::InboundMetadataPlane },
        WordRequest::Words(usize_max(inbound_words, 1)),
        WordRequest::Words(usize_max(inbound_words, 1)),
        WordRequest::Words(stream_state),
        WordRequest::Product { count: stream_record_slots, width: EVENT_WORDS, floor: 1, quantity: SizingQuantity::StreamRecordPlane },
        WordRequest::Derived(crate::device_scheduler::spec_device_scheduler_word_count(image, queue_capacities)),
    ]
}

/// The established planes of the given words, with their byte sizes.
pub open spec fn planes_of(words: Seq<usize>) -> Seq<DevicePlaneSizing> {
    Seq::new(
        words.len(),
        |index: int|
            DevicePlaneSizing {
                index: index as usize,
                name: plane_name(index),
                words: words[index],
                bytes: (words[index] * WORD_BYTES) as usize,
            },
    )
}

pub open spec fn plane_bytes_total(planes: Seq<DevicePlaneSizing>) -> nat
    decreases planes.len(),
{
    if planes.len() == 0 {
        0
    } else {
        (plane_bytes_total(planes.drop_last()) + planes.last().bytes) as nat
    }
}

/// The planes, total bytes and event arenas of the plan, from its derived counts.
pub open spec fn finish_plan(
    image: SimulationImage,
    context: ContextModel,
    words: Seq<usize>,
    fallback_slots: usize,
    legacy_slots: usize,
    channel_slots: usize,
    service_slots: usize,
    generator_slots: usize,
    stream_state: usize,
    stream_record_slots: usize,
) -> Result<PlanModel, DeviceSizingError> {
    let nodes = image.nodes.len() as usize;
    if exists|index: int| 0 <= index < words.len() && #[trigger] words[index] * WORD_BYTES > usize::MAX {
        Err(overflow_of(SizingQuantity::DevicePlaneBytes))
    } else {
        let base = planes_of(words);
        let tcp = spec_packed_tcp_state_words(image, context.packet_counts);
        if tcp_image(image) && tcp is Err {
            Err(tcp->Err_0)
        } else if tcp_image(image) && tcp->Ok_0 * WORD_BYTES > usize::MAX {
            Err(overflow_of(SizingQuantity::TcpStatePlaneBytes))
        } else {
            let planes = if tcp_image(image) {
                base.push(
                    DevicePlaneSizing {
                        index: BASE_PLANE_COUNT,
                        name: plane_name(BASE_PLANE_COUNT as int),
                        words: tcp->Ok_0,
                        bytes: (tcp->Ok_0 * WORD_BYTES) as usize,
                    },
                )
            } else {
                base
            };
            let stream_bytes = stream_state * WORD_BYTES + stream_record_slots * EVENT_WORDS
                * WORD_BYTES;
            if plane_bytes_total(planes) > usize::MAX {
                Err(overflow_of(SizingQuantity::TotalDeviceBytes))
            } else if spec_event_arena_bytes(fallback_slots, nodes) > usize::MAX {
                Err(overflow_of(SizingQuantity::EventArenaBytes))
            } else if stream_state * WORD_BYTES > usize::MAX {
                Err(overflow_of(SizingQuantity::StreamStateBytes))
            } else if stream_record_slots * EVENT_WORDS > usize::MAX {
                Err(overflow_of(SizingQuantity::StreamRecordWords))
            } else if stream_record_slots * EVENT_WORDS * WORD_BYTES > usize::MAX {
                Err(overflow_of(SizingQuantity::StreamRecordBytes))
            } else if stream_bytes > usize::MAX {
                Err(overflow_of(SizingQuantity::StreamArenaBytes))
            } else if spec_event_arena_bytes(legacy_slots, nodes) > usize::MAX {
                Err(overflow_of(SizingQuantity::EventArenaBytes))
            } else {
                Ok(
                    PlanModel {
                        planes,
                        total_device_bytes: plane_bytes_total(planes) as usize,
                        event_arenas: DeviceEventArenaSizing {
                            legacy_heap_event_slots: legacy_slots,
                            fallback_heap_event_slots: fallback_slots,
                            channel_stream_event_slots: channel_slots,
                            service_stream_event_slots: service_slots,
                            generator_stream_event_slots: generator_slots,
                            heap_arena_bytes: spec_event_arena_bytes(fallback_slots, nodes) as usize,
                            stream_arena_bytes: stream_bytes as usize,
                            legacy_heap_arena_bytes: spec_event_arena_bytes(legacy_slots, nodes)
                                as usize,
                        },
                    },
                )
            }
        }
    }
}

/// The default plan of an image with a derived context: slot counts, stream sizes and plane
/// words in the order the plan derives them, each checked against `usize`.
pub open spec fn plan_with_context(image: SimulationImage, context: ContextModel) -> Result<
    PlanModel,
    DeviceSizingError,
> {
    let nodes = image.nodes.len();
    let flows = image.flows.len();
    let generators = image_generators(image);
    let (fel, queue) = spec_lp_capacities(image, context);
    let timers = tcp_timer_total(generators, context.packet_counts, generators.len());
    let fallback = nodes + image.initial_events.len() + timers;
    let remote_caps = spec_remote_capacities(image, context);
    if timers > usize::MAX {
        Err(overflow_of(SizingQuantity::TcpFallbackFelSlots))
    } else if fallback > usize::MAX {
        Err(overflow_of(SizingQuantity::FallbackFelSlots))
    } else if seq_sum(fel) > usize::MAX {
        Err(overflow_of(SizingQuantity::LegacyFelSlots))
    } else if seq_sum(queue) > usize::MAX {
        Err(overflow_of(SizingQuantity::QueueSlots))
    } else if seq_sum(remote_caps) > usize::MAX {
        Err(overflow_of(SizingQuantity::RemoteStagingSlots))
    } else {
        match spec_channel_stream_capacities(image, context) {
            Err((link, target)) => Err(
                DeviceSizingError(SizingFault::MissingStreamClassification { link, target }),
            ),
            Ok(channel_caps) => {
                let channel_slots = seq_sum(channel_caps);
                let records = channel_slots + nodes * 2 + flows * 2;
                if channel_slots > usize::MAX {
                    Err(overflow_of(SizingQuantity::ChannelStreamSlots))
                } else if nodes * 2 > usize::MAX {
                    Err(overflow_of(SizingQuantity::ServiceStreamSlots))
                } else if flows * 2 > usize::MAX {
                    Err(overflow_of(SizingQuantity::GeneratorStreamSlots))
                } else if records > usize::MAX {
                    Err(overflow_of(SizingQuantity::StreamRecordSlots))
                } else {
                    match spec_stream_state_words(image, seq_sum(remote_caps) as usize) {
                        Err(error) => Err(error),
                        Ok(state) => {
                            let stream_state = usize_max(state, 1);
                            let routes = route_words_total(image, flows as nat);
                            if routes > usize::MAX {
                                Err(overflow_of(SizingQuantity::RoutePlane))
                            } else {
                                let requests = plan_requests(
                                    image,
                                    queue,
                                    usize_max(routes as usize, 1),
                                    fallback as usize,
                                    seq_sum(queue) as usize,
                                    spec_remote_capacity(image, context),
                                    seq_sum(remote_caps) as usize,
                                    spec_inbound_producer_words(image),
                                    stream_state,
                                    records as usize,
                                );
                                match evaluate_requests(requests) {
                                    Err(error) => Err(error),
                                    Ok(words) => finish_plan(
                                        image,
                                        context,
                                        words,
                                        fallback as usize,
                                        seq_sum(fel) as usize,
                                        channel_slots as usize,
                                        (nodes * 2) as usize,
                                        (flows * 2) as usize,
                                        stream_state,
                                        records as usize,
                                    ),
                                }
                            }
                        },
                    }
                }
            },
        }
    }
}

/// The default device plan of an image, or the first failure deriving it.
pub open spec fn spec_size_default_device_plan(image: SimulationImage) -> Result<
    PlanModel,
    DeviceSizingError,
> {
    match spec_context(image) {
        Err(error) => Err(error),
        Ok(context) => plan_with_context(image, context),
    }
}

/// The image is one the plan can be derived for: every reference resolves, every generator
/// budget and every carrying hop's serialization is a defined computation.
pub open spec fn sizing_defined(image: SimulationImage) -> bool {
    &&& flow_references_valid(image)
    &&& topology_valid(image)
    &&& generator_budgets_defined(image)
    &&& match spec_context(image) {
        Ok(context) => hop_bounds_defined(image, context),
        Err(_) => true,
    }
}

fn tcp_timer_slots(image: &SimulationImage, context: &CapacityContext) -> (slots: Result<
    usize,
    DeviceSizingError,
>)
    requires
        flow_references_valid(*image),
        context_of(*image, context@),
    ensures
        match slots {
            Ok(slots) => slots == tcp_timer_total(
                image_generators(*image),
                context@.packet_counts,
                image_generators(*image).len(),
            ),
            Err(error) => tcp_timer_total(
                image_generators(*image),
                context@.packet_counts,
                image_generators(*image).len(),
            ) > usize::MAX && error == overflow_of(SizingQuantity::TcpFallbackFelSlots),
        },
{
    let mut total: usize = 0;
    let mut index: usize = 0;
    while index < context.generators.len()
        invariant
            flow_references_valid(*image),
            context_of(*image, context@),
            index <= context.generators.len(),
            total == tcp_timer_total(context.generators@, context.packet_counts@, index as nat),
        decreases context.generators.len() - index,
    {
        let generator = context.generators[index];
        assert(generator == image_generators(*image)[index as int]);
        if let FlowGeneratorKind::Tcp(_) = generator.kind {
            let budget = context.packet_counts[generator.flow.0 as usize];
            let slots = if budget >= 1 { budget } else { 1 };
            match total.checked_add(slots) {
                Some(next) => total = next,
                None => {
                    proof {
                        lemma_tcp_timers_grow(
                            context.generators@,
                            context.packet_counts@,
                            index as nat + 1,
                        );
                    }
                    return Err(overflow(SizingQuantity::TcpFallbackFelSlots));
                },
            }
        }
        index += 1;
    }
    Ok(total)
}

proof fn lemma_tcp_timers_grow(
    generators: Seq<FlowGeneratorState>,
    packet_counts: Seq<usize>,
    count: nat,
)
    requires
        count <= generators.len(),
    ensures
        tcp_timer_total(generators, packet_counts, count) <= tcp_timer_total(
            generators,
            packet_counts,
            generators.len(),
        ),
    decreases generators.len() - count,
{
    if count < generators.len() {
        lemma_tcp_timers_grow(generators, packet_counts, count + 1);
    }
}

fn route_words(image: &SimulationImage) -> (words: Result<usize, DeviceSizingError>)
    ensures
        match words {
            Ok(words) => words == route_words_total(*image, image.flows.len() as nat),
            Err(error) => route_words_total(*image, image.flows.len() as nat) > usize::MAX
                && error == overflow_of(SizingQuantity::RoutePlane),
        },
{
    let mut total: usize = 0;
    let mut flow: usize = 0;
    while flow < image.flows.len()
        invariant
            flow <= image.flows.len(),
            total == route_words_total(*image, flow as nat),
        decreases image.flows.len() - flow,
    {
        let next = match total.checked_add(image.flows[flow].route.len()) {
            Some(with_route) => with_route.checked_add(image.flows[flow].reverse_route.len()),
            None => None,
        };
        match next {
            Some(next) => total = next,
            None => {
                proof {
                    lemma_route_words_grow(*image, flow as nat + 1);
                }
                return Err(overflow(SizingQuantity::RoutePlane));
            },
        }
        flow += 1;
    }
    Ok(total)
}

proof fn lemma_route_words_grow(image: SimulationImage, count: nat)
    requires
        count <= image.flows.len(),
    ensures
        route_words_total(image, count) <= route_words_total(image, image.flows.len() as nat),
    decreases image.flows.len() - count,
{
    if count < image.flows.len() {
        lemma_route_words_grow(image, count + 1);
    }
}

fn is_tcp_image(image: &SimulationImage) -> (tcp: bool)
    ensures
        tcp == tcp_image(*image),
{
    let mut host: usize = 0;
    while host < image.host_states.len()
        invariant
            host <= image.host_states.len(),
            forall|earlier: int|
                0 <= earlier < host ==> {
                    let state = #[trigger] image.host_states[earlier];
                    !(state.tcp_receivers.len() > 0 || exists|index: int|
                        0 <= index < state.generators.len()
                            && (#[trigger] state.generators[index]).kind is Tcp)
                },
        decreases image.host_states.len() - host,
    {
        let state = &image.host_states[host];
        if state.tcp_receivers.len() > 0 {
            assert(image.host_states[host as int] == *state);
            return true;
        }
        let mut index: usize = 0;
        while index < state.generators.len()
            invariant
                index <= state.generators.len(),
                host < image.host_states.len(),
                *state == image.host_states[host as int],
                forall|earlier: int| 0 <= earlier < index ==> !((#[trigger] state.generators[earlier]).kind is Tcp),
            decreases state.generators.len() - index,
        {
            if let FlowGeneratorKind::Tcp(_) = state.generators[index].kind {
                proof {
                    assert(state.generators[index as int].kind is Tcp);
                    assert(image.host_states[host as int] == *state);
                }
                return true;
            }
            index += 1;
        }
        host += 1;
    }
    false
}

fn finish_plan_exec(
    image: &SimulationImage,
    context: &CapacityContext,
    words: &Vec<usize>,
    fallback_slots: usize,
    legacy_slots: usize,
    channel_slots: usize,
    service_slots: usize,
    generator_slots: usize,
    stream_state: usize,
    stream_record_slots: usize,
) -> (report: Result<DeviceSizingReport, DeviceSizingError>)
    requires
        flow_references_valid(*image),
        context_of(*image, context@),
        words.len() == BASE_PLANE_COUNT,
    ensures
        match report {
            Ok(report) => finish_plan(
                *image,
                context@,
                words@,
                fallback_slots,
                legacy_slots,
                channel_slots,
                service_slots,
                generator_slots,
                stream_state,
                stream_record_slots,
            ) == Ok::<PlanModel, DeviceSizingError>(report@),
            Err(error) => finish_plan(
                *image,
                context@,
                words@,
                fallback_slots,
                legacy_slots,
                channel_slots,
                service_slots,
                generator_slots,
                stream_state,
                stream_record_slots,
            ) == Err::<PlanModel, DeviceSizingError>(error),
        },
{
    let mut planes: Vec<DevicePlaneSizing> = Vec::new();
    let mut index: usize = 0;
    while index < words.len()
        invariant
            index <= words.len(),
            planes@ == planes_of(words@).take(index as int),
            forall|earlier: int| 0 <= earlier < index ==> #[trigger] words@[earlier] * WORD_BYTES <= usize::MAX,
        decreases words.len() - index,
    {
        let bytes = match checked_product(words[index], WORD_BYTES, SizingQuantity::DevicePlaneBytes) {
            Ok(bytes) => bytes,
            Err(error) => {
                assert(words@[index as int] * WORD_BYTES > usize::MAX);
                return Err(error);
            },
        };
        let plane = DevicePlaneSizing {
            index,
            name: plane_name_exec(index),
            words: words[index],
            bytes,
        };
        planes.push(plane);
        assert(planes_of(words@).take(index as int + 1) == planes_of(words@).take(index as int).push(
            plane,
        ));
        index += 1;
    }
    assert(planes_of(words@).take(index as int) == planes_of(words@));
    assert(!exists|index: int| 0 <= index < words@.len() && #[trigger] words@[index] * WORD_BYTES > usize::MAX);
    let ghost base = planes@;
    let tcp = is_tcp_image(image);
    if tcp {
        let tcp_words = match packed_tcp_state_words(image, &context.generators, &context.packet_counts) {
            Ok(words) => words,
            Err(error) => return Err(error),
        };
        let bytes = match checked_product(tcp_words, WORD_BYTES, SizingQuantity::TcpStatePlaneBytes) {
            Ok(bytes) => bytes,
            Err(error) => return Err(error),
        };
        let plane = DevicePlaneSizing {
            index: BASE_PLANE_COUNT,
            name: plane_name_exec(BASE_PLANE_COUNT),
            words: tcp_words,
            bytes,
        };
        planes.push(plane);
        assert(planes@ == base.push(plane));
    }
    assert(planes@ == (if tcp_image(*image) {
        base.push(
            DevicePlaneSizing {
                index: BASE_PLANE_COUNT,
                name: plane_name(BASE_PLANE_COUNT as int),
                words: spec_packed_tcp_state_words(*image, context@.packet_counts)->Ok_0,
                bytes: (spec_packed_tcp_state_words(*image, context@.packet_counts)->Ok_0
                    * WORD_BYTES) as usize,
            },
        )
    } else {
        base
    }));
    let mut total: usize = 0;
    let mut plane: usize = 0;
    while plane < planes.len()
        invariant
            plane <= planes.len(),
            total == plane_bytes_total(planes@.take(plane as int)),
            !exists|index: int| 0 <= index < words@.len() && #[trigger] words@[index] * WORD_BYTES > usize::MAX,
            base == planes_of(words@),
            tcp == tcp_image(*image),
            tcp ==> spec_packed_tcp_state_words(*image, context@.packet_counts) is Ok,
            tcp ==> spec_packed_tcp_state_words(*image, context@.packet_counts)->Ok_0 * WORD_BYTES <= usize::MAX,
            planes@ == (if tcp_image(*image) {
                base.push(
                    DevicePlaneSizing {
                        index: BASE_PLANE_COUNT,
                        name: plane_name(BASE_PLANE_COUNT as int),
                        words: spec_packed_tcp_state_words(*image, context@.packet_counts)->Ok_0,
                        bytes: (spec_packed_tcp_state_words(*image, context@.packet_counts)->Ok_0
                            * WORD_BYTES) as usize,
                    },
                )
            } else {
                base
            }),
        decreases planes.len() - plane,
    {
        assert(planes@.take(plane as int + 1).drop_last() == planes@.take(plane as int));
        match total.checked_add(planes[plane].bytes) {
            Some(next) => total = next,
            None => {
                proof {
                    lemma_plane_bytes_grow(planes@, plane as int + 1);
                    assert(planes@.take(plane as int + 1).last() == planes@[plane as int]);
                    assert(plane_bytes_total(planes@.take(plane as int + 1)) > usize::MAX);
                    assert(plane_bytes_total(planes@) > usize::MAX);
                }
                return Err(overflow(SizingQuantity::TotalDeviceBytes));
            },
        }
        plane += 1;
    }
    assert(planes@.take(plane as int) == planes@);
    let node_count = image.nodes.len();
    let heap_arena_bytes = match event_arena_bytes(fallback_slots, node_count) {
        Ok(bytes) => bytes,
        Err(error) => return Err(error),
    };
    let state_bytes = match checked_product(stream_state, WORD_BYTES, SizingQuantity::StreamStateBytes) {
        Ok(bytes) => bytes,
        Err(error) => return Err(error),
    };
    let record_words = match checked_product(
        stream_record_slots,
        EVENT_WORDS,
        SizingQuantity::StreamRecordWords,
    ) {
        Ok(words) => words,
        Err(error) => return Err(error),
    };
    let record_bytes = match checked_product(record_words, WORD_BYTES, SizingQuantity::StreamRecordBytes) {
        Ok(bytes) => bytes,
        Err(error) => return Err(error),
    };
    let stream_arena_bytes = match state_bytes.checked_add(record_bytes) {
        Some(bytes) => bytes,
        None => return Err(overflow(SizingQuantity::StreamArenaBytes)),
    };
    let legacy_heap_arena_bytes = match event_arena_bytes(legacy_slots, node_count) {
        Ok(bytes) => bytes,
        Err(error) => return Err(error),
    };
    Ok(
        DeviceSizingReport {
            planes,
            total_device_bytes: total,
            event_arenas: DeviceEventArenaSizing {
                legacy_heap_event_slots: legacy_slots,
                fallback_heap_event_slots: fallback_slots,
                channel_stream_event_slots: channel_slots,
                service_stream_event_slots: service_slots,
                generator_stream_event_slots: generator_slots,
                heap_arena_bytes,
                stream_arena_bytes,
                legacy_heap_arena_bytes,
            },
        },
    )
}

proof fn lemma_plane_bytes_grow(planes: Seq<DevicePlaneSizing>, count: int)
    requires
        0 <= count <= planes.len(),
    ensures
        plane_bytes_total(planes.take(count)) <= plane_bytes_total(planes),
    decreases planes.len() - count,
{
    if count < planes.len() {
        assert(planes.take(count + 1).drop_last() == planes.take(count));
        lemma_plane_bytes_grow(planes, count + 1);
    } else {
        assert(planes.take(count) == planes);
    }
}

#[verifier::spinoff_prover]
#[verifier::rlimit(50)]
fn plan_with_context_exec(image: &SimulationImage, context: &CapacityContext) -> (report: Result<
    DeviceSizingReport,
    DeviceSizingError,
>)
    requires
        flow_references_valid(*image),
        topology_valid(*image),
        context_of(*image, context@),
        hop_bounds_defined(*image, context@),
    ensures
        match report {
            Ok(report) => plan_with_context(*image, context@) == Ok::<PlanModel, DeviceSizingError>(
                report@,
            ),
            Err(error) => plan_with_context(*image, context@) == Err::<PlanModel, DeviceSizingError>(
                error,
            ),
        },
{
    let node_count = image.nodes.len();
    let flow_count = image.flows.len();
    let link_count = image.links.len();
    let (fel, queue) = lp_capacities(image, context);
    let timers = match tcp_timer_slots(image, context) {
        Ok(slots) => slots,
        Err(error) => return Err(error),
    };
    let fallback_slots = match node_count.checked_add(image.initial_events.len()) {
        Some(slots) => match slots.checked_add(timers) {
            Some(slots) => slots,
            None => return Err(overflow(SizingQuantity::FallbackFelSlots)),
        },
        None => return Err(overflow(SizingQuantity::FallbackFelSlots)),
    };
    let legacy_slots = match checked_sum(&fel, SizingQuantity::LegacyFelSlots) {
        Ok(slots) => slots,
        Err(error) => return Err(error),
    };
    let queue_slots = match checked_sum(&queue, SizingQuantity::QueueSlots) {
        Ok(slots) => slots,
        Err(error) => return Err(error),
    };
    let remote_bound = derived_remote_capacity(image, context);
    let remote_capacities = derived_remote_capacities(image, context);
    let remote_staging_slots = match checked_sum(
        &remote_capacities,
        SizingQuantity::RemoteStagingSlots,
    ) {
        Ok(slots) => slots,
        Err(error) => return Err(error),
    };
    let channel_capacities = match derived_channel_stream_capacities(image, context) {
        Ok(capacities) => capacities,
        Err(error) => return Err(error),
    };
    let channel_slots = match checked_sum(&channel_capacities, SizingQuantity::ChannelStreamSlots) {
        Ok(slots) => slots,
        Err(error) => return Err(error),
    };
    let service_slots = match checked_product(node_count, 2, SizingQuantity::ServiceStreamSlots) {
        Ok(slots) => slots,
        Err(error) => return Err(error),
    };
    let generator_slots = match checked_product(flow_count, 2, SizingQuantity::GeneratorStreamSlots) {
        Ok(slots) => slots,
        Err(error) => return Err(error),
    };
    let stream_record_slots = match channel_slots.checked_add(service_slots) {
        Some(slots) => match slots.checked_add(generator_slots) {
            Some(slots) => slots,
            None => return Err(overflow(SizingQuantity::StreamRecordSlots)),
        },
        None => return Err(overflow(SizingQuantity::StreamRecordSlots)),
    };
    let state_words = match stream_state_words(image, &context.generators, remote_staging_slots) {
        Ok(words) => words,
        Err(error) => return Err(error),
    };
    let stream_state = if state_words >= 1 { state_words } else { 1 };
    let inbound_words = inbound_producer_words(image);
    let routes = match route_words(image) {
        Ok(words) => words,
        Err(error) => return Err(error),
    };
    let scheduler = crate::device_scheduler::device_scheduler_word_count(image, &queue);
    let flows_or_one = if flow_count >= 1 { flow_count } else { 1 };
    let links_or_one = if link_count >= 1 { link_count } else { 1 };
    let nodes_or_one = if node_count >= 1 { node_count } else { 1 };
    let requests: Vec<WordRequest> = vec![
        WordRequest::Words(CONTROL_WORDS),
        WordRequest::Words(PARAM_WORDS),
        WordRequest::Product { count: node_count, width: NODE_WORDS, floor: 0, quantity: SizingQuantity::NodeStatePlane },
        WordRequest::Product { count: flows_or_one, width: GENERATOR_WORDS, floor: 0, quantity: SizingQuantity::GeneratorPlane },
        WordRequest::Product { count: flows_or_one, width: FLOW_WORDS, floor: 0, quantity: SizingQuantity::FlowPlane },
        WordRequest::Words(if routes >= 1 { routes } else { 1 }),
        WordRequest::Product { count: links_or_one, width: LINK_WORDS, floor: 0, quantity: SizingQuantity::LinkPlane },
        WordRequest::Product { count: node_count, width: ARENA_META_WORDS, floor: 0, quantity: SizingQuantity::FelMetadataPlane },
        WordRequest::Product { count: fallback_slots, width: EVENT_WORDS, floor: 1, quantity: SizingQuantity::FelRecordPlane },
        WordRequest::Product { count: node_count, width: ARENA_META_WORDS, floor: 0, quantity: SizingQuantity::QueueMetadataPlane },
        WordRequest::Product { count: queue_slots, width: EVENT_WORDS, floor: 1, quantity: SizingQuantity::QueueRecordPlane },
        WordRequest::Product { count: node_count, width: EVENT_WORDS, floor: 1, quantity: SizingQuantity::InServicePlane },
        WordRequest::Product { count: if remote_bound >= 1 { remote_bound } else { 1 }, width: EVENT_WORDS, floor: 0, quantity: SizingQuantity::OutboxPlane },
        WordRequest::Words(nodes_or_one),
        WordRequest::Product { count: nodes_or_one, width: 24, floor: 0, quantity: SizingQuantity::SummaryPlane },
        WordRequest::Words(1),
        WordRequest::Words(1),
        WordRequest::Words(1),
        WordRequest::Product { count: nodes_or_one, width: LP_STATE_WORDS, floor: 0, quantity: SizingQuantity::LpStatePlane },
        WordRequest::Product { count: node_count, width: ARENA_META_WORDS, floor: 0, quantity: SizingQuantity::RemoteMetadataPlane },
        WordRequest::Product { count: remote_staging_slots, width: EVENT_WORDS, floor: 1, quantity: SizingQuantity::RemoteStagingPlane },
        WordRequest::Product { count: node_count, width: OBSERVATION_META_WORDS, floor: 0, quantity: SizingQuantity::ObservationMetadataPlane },
        WordRequest::Product { count: node_count, width: INBOUND_META_WORDS, floor: 0, quantity: SizingQuantity::InboundMetadataPlane },
        WordRequest::Words(if inbound_words >= 1 { inbound_words } else { 1 }),
        WordRequest::Words(if inbound_words >= 1 { inbound_words } else { 1 }),
        WordRequest::Words(stream_state),
        WordRequest::Product { count: stream_record_slots, width: EVENT_WORDS, floor: 1, quantity: SizingQuantity::StreamRecordPlane },
        WordRequest::Derived(scheduler),
    ];
    proof {
        let (spec_fel, spec_queue) = spec_lp_capacities(*image, context@);
        assert(fel@ == spec_fel && queue@ == spec_queue);
        assert(requests@ == plan_requests(
            *image,
            queue@,
            usize_max(routes, 1),
            fallback_slots,
            queue_slots,
            remote_bound,
            remote_staging_slots,
            inbound_words,
            stream_state,
            stream_record_slots,
        ));
    }
    let words = match evaluate_word_requests(&requests) {
        Ok(words) => words,
        Err(error) => return Err(error),
    };
    finish_plan_exec(
        image,
        context,
        &words,
        fallback_slots,
        legacy_slots,
        channel_slots,
        service_slots,
        generator_slots,
        stream_state,
        stream_record_slots,
    )
}

/// Sizes the default streams-enabled, summary-observation GPU plan without allocating a plane.
pub fn size_default_device_plan(image: &SimulationImage) -> (report: Result<
    DeviceSizingReport,
    DeviceSizingError,
>)
    requires
        sizing_defined(*image),
    ensures
        match report {
            Ok(report) => spec_size_default_device_plan(*image) == Ok::<
                PlanModel,
                DeviceSizingError,
            >(report@),
            Err(error) => spec_size_default_device_plan(*image) == Err::<
                PlanModel,
                DeviceSizingError,
            >(error),
        },
{
    let context = match CapacityContext::new(image) {
        Ok(context) => context,
        Err(error) => return Err(error),
    };
    plan_with_context_exec(image, &context)
}

proof fn lemma_evaluated_words_len(requests: Seq<WordRequest>)
    ensures
        evaluate_requests(requests) is Ok ==> evaluate_requests(requests)->Ok_0.len()
            == requests.len(),
    decreases requests.len(),
{
    if requests.len() > 0 {
        lemma_evaluated_words_len(requests.drop_last());
    }
}

/// Every derived plan lists the 28 established planes in order, followed by the packed TCP
/// plane exactly when the image runs TCP; every plane's bytes are its words times eight, and
/// the plan's device bytes are the sum over its planes.
pub proof fn law_plan_lists_the_established_planes(image: SimulationImage)
    requires
        spec_size_default_device_plan(image) is Ok,
    ensures
        ({
            let plan = spec_size_default_device_plan(image)->Ok_0;
            &&& plan.planes.len() == if tcp_image(image) {
                BASE_PLANE_COUNT + 1
            } else {
                BASE_PLANE_COUNT as int
            }
            &&& forall|index: int|
                0 <= index < plan.planes.len() ==> {
                    let plane = #[trigger] plan.planes[index];
                    &&& plane.index == index
                    &&& plane.name == plane_name(index)
                    &&& plane.bytes == plane.words * WORD_BYTES
                }
            &&& plan.total_device_bytes == plane_bytes_total(plan.planes)
        }),
{
    let context = spec_context(image)->Ok_0;
    let nodes = image.nodes.len();
    let flows = image.flows.len();
    let (fel, queue) = spec_lp_capacities(image, context);
    let remote_caps = spec_remote_capacities(image, context);
    let channel_caps = spec_channel_stream_capacities(image, context)->Ok_0;
    let channel_slots = seq_sum(channel_caps);
    let records = channel_slots + nodes * 2 + flows * 2;
    let state = spec_stream_state_words(image, seq_sum(remote_caps) as usize)->Ok_0;
    let stream_state = usize_max(state, 1);
    let routes = route_words_total(image, flows as nat);
    let generators = image_generators(image);
    let timers = tcp_timer_total(generators, context.packet_counts, generators.len());
    let fallback = nodes + image.initial_events.len() + timers;
    let requests = plan_requests(
        image,
        queue,
        usize_max(routes as usize, 1),
        fallback as usize,
        seq_sum(queue) as usize,
        spec_remote_capacity(image, context),
        seq_sum(remote_caps) as usize,
        spec_inbound_producer_words(image),
        stream_state,
        records as usize,
    );
    assert(requests.len() == BASE_PLANE_COUNT);
    lemma_evaluated_words_len(requests);
    let words = evaluate_requests(requests)->Ok_0;
    assert(words.len() == BASE_PLANE_COUNT);
    let plan = spec_size_default_device_plan(image)->Ok_0;
    let base = planes_of(words);
    assert forall|index: int| 0 <= index < base.len() implies {
        let plane = #[trigger] base[index];
        &&& plane.index == index
        &&& plane.name == plane_name(index)
        &&& plane.bytes == plane.words * WORD_BYTES
    } by {
        assert(words[index] * WORD_BYTES <= usize::MAX);
    }
    if tcp_image(image) {
        assert(plan.planes == base.push(plan.planes[BASE_PLANE_COUNT as int]));
        assert forall|index: int| 0 <= index < plan.planes.len() implies {
            let plane = #[trigger] plan.planes[index];
            &&& plane.index == index
            &&& plane.name == plane_name(index)
            &&& plane.bytes == plane.words * WORD_BYTES
        } by {
            if index < BASE_PLANE_COUNT {
                assert(plan.planes[index] == base[index]);
            }
        }
    }
}

/// Once the budget fold fails, it stays failed.
proof fn lemma_packet_counts_stay_none(
    image: SimulationImage,
    generators: Seq<FlowGeneratorState>,
    count: int,
)
    requires
        0 <= count <= generators.len(),
        generator_packet_counts(image, generators.take(count)) is None,
    ensures
        generator_packet_counts(image, generators) is None,
    decreases generators.len() - count,
{
    if count < generators.len() {
        assert(generators.take(count + 1).drop_last() == generators.take(count));
        lemma_packet_counts_stay_none(image, generators, count + 1);
    } else {
        assert(generators.take(count) == generators);
    }
}

} // verus!
