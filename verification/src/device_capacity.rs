//! Deterministic device-arena capacity planning: caps, retry floors and warm starts.
//!
//! Capacity on the device path is refuse-or-run, never semantics: an arena is either large enough
//! and the run produces the complete state, or the attempt aborts with a typed capacity fault and
//! is retried with a strictly larger capacity. Records are never truncated.

use vstd::prelude::*;

use crate::capacity_map::{
    keys_ascend, lemma_lookup_absent_below, lemma_lookup_member, lemma_lookup_none, lemma_lookup_some, lemma_raise, spec_lookup, spec_merge_all,
    spec_raise, CapacityMap,
};
use crate::event::{FlowId, NodeId};

verus! {

/// One level in a deterministic channel-stream capacity histogram.
#[derive(Clone, Copy, Debug, PartialEq, Eq, Structural)]
pub struct ChannelStreamCapacityLevel {
    pub capacity: usize,
    pub stream_count: usize,
}

/// Number of streams planned with `capacity`.
pub open spec fn spec_stream_count(capacities: Seq<usize>, capacity: usize) -> int {
    capacities.filter(|c: usize| c == capacity).len() as int
}

/// The capacity histogram in ascending capacity order, one level per distinct capacity.
pub fn channel_capacity_distribution(capacities: &[usize]) -> (levels: Vec<
    ChannelStreamCapacityLevel,
>)
    ensures
        forall|i: int, j: int|
            0 <= i < j < levels@.len() ==> levels@[i].capacity < levels@[j].capacity,
        forall|i: int|
            #![trigger levels@[i]]
            0 <= i < levels@.len() ==> exists|s: int|
                #![trigger capacities@[s]]
                0 <= s < capacities@.len() && capacities@[s] == levels@[i].capacity,
        forall|s: int|
            #![trigger capacities@[s]]
            0 <= s < capacities@.len() ==> exists|i: int|
                #![trigger levels@[i]]
                0 <= i < levels@.len() && levels@[i].capacity == capacities@[s],
        forall|i: int|
            0 <= i < levels@.len() ==> #[trigger] levels@[i].stream_count == spec_stream_count(
                capacities@,
                levels@[i].capacity,
            ),
{
    let mut counts = CapacityMap::new();
    let mut s: usize = 0;
    while s < capacities.len()
        invariant
            s <= capacities@.len(),
            counts.wf(),
            forall|c: usize|
                #![trigger spec_lookup(counts.entries_seq(), c)]
                spec_lookup(counts.entries_seq(), c) == if spec_stream_count(
                    capacities@.subrange(0, s as int),
                    c,
                ) == 0 {
                    None::<usize>
                } else {
                    Some(spec_stream_count(capacities@.subrange(0, s as int), c) as usize)
                },
            forall|i: int|
                #![trigger counts.entries_seq()[i]]
                0 <= i < counts.entries_seq().len() ==> exists|t: int|
                    #![trigger capacities@[t]]
                    0 <= t < s && capacities@[t] == counts.entries_seq()[i].0,
        decreases capacities@.len() - s,
    {
        let capacity = capacities[s];
        let current = counts.floor(capacity);
        proof {
            lemma_raise(counts.entries_seq(), capacity, (current + 1) as usize);
            let before = capacities@.subrange(0, s as int);
            let after = capacities@.subrange(0, s + 1);
            assert(after =~= before.push(capacity));
            assert forall|c: usize| #[trigger] spec_stream_count(after, c) == spec_stream_count(
                before,
                c,
            ) + if c == capacity { 1int } else { 0int } by {
                assert(after.filter(|x: usize| x == c) =~= if c == capacity {
                    before.filter(|x: usize| x == c).push(capacity)
                } else {
                    before.filter(|x: usize| x == c)
                }) by {
                    reveal(Seq::filter);
                    assert(after.drop_last() =~= before);
                }
            }
            assert(spec_stream_count(before, capacity) <= before.len()) by {
                lemma_filter_len(before, capacity);
            }
        }
        counts.raise(capacity, current + 1);
        proof {
            let entries = counts.entries_seq();
            assert forall|i: int| #![trigger entries[i]] 0 <= i < entries.len() implies exists|t: int|
                #![trigger capacities@[t]]
                0 <= t < s + 1 && capacities@[t] == entries[i].0 by {
            }
        }
        s = s + 1;
    }
    let entries = counts.to_vec();
    let mut levels: Vec<ChannelStreamCapacityLevel> = Vec::new();
    let mut i: usize = 0;
    proof {
        assert(capacities@.subrange(0, capacities@.len() as int) =~= capacities@);
    }
    while i < entries.len()
        invariant
            i <= entries@.len(),
            entries@ == counts.entries_seq(),
            keys_ascend(entries@),
            levels@.len() == i,
            forall|j: int|
                0 <= j < i ==> #[trigger] levels@[j] == (ChannelStreamCapacityLevel {
                    capacity: entries@[j].0,
                    stream_count: entries@[j].1,
                }),
        decreases entries@.len() - i,
    {
        levels.push(ChannelStreamCapacityLevel { capacity: entries[i].0, stream_count: entries[i].1 });
        i = i + 1;
    }
    proof {
        assert forall|i: int| 0 <= i < levels@.len() implies #[trigger] levels@[i].stream_count
            == spec_stream_count(capacities@, levels@[i].capacity) by {
            lemma_lookup_member(entries@, i);
        }
        assert forall|t: int| #![trigger capacities@[t]] 0 <= t < capacities@.len() implies exists|i: int|
            #![trigger levels@[i]]
            0 <= i < levels@.len() && levels@[i].capacity == capacities@[t] by {
            let c = capacities@[t];
            lemma_filter_member(capacities@, t);
            assert(spec_lookup(entries@, c) is Some);
            lemma_lookup_some(entries@, c);
            let i = choose|i: int| 0 <= i < entries@.len() && entries@[i].0 == c && entries@[i].1
                == spec_lookup(entries@, c)->Some_0;
            assert(levels@[i].capacity == capacities@[t]);
        }
    }
    levels
}

proof fn lemma_filter_len(s: Seq<usize>, c: usize)
    ensures
        s.filter(|x: usize| x == c).len() <= s.len(),
    decreases s.len(),
{
    reveal(Seq::filter);
    if s.len() > 0 {
        lemma_filter_len(s.drop_last(), c);
    }
}

proof fn lemma_filter_member(s: Seq<usize>, t: int)
    requires
        0 <= t < s.len(),
    ensures
        s.filter(|x: usize| x == s[t]).len() > 0,
    decreases s.len(),
{
    reveal(Seq::filter);
    if t < s.len() - 1 {
        lemma_filter_member(s.drop_last(), t);
        assert(s.drop_last()[t] == s[t]);
    }
}

/// Optional upper bounds for device arenas whose production defaults are derived from the full
/// simulation image.
///
/// Each cap is applied independently as `min(derived, cap)`, then raised to the number of records
/// already resident in the input image. `None` preserves the uncapped production sizing exactly.
#[derive(Clone, Copy, Debug, Default, PartialEq, Eq, Structural)]
pub struct DeviceCapacityCaps {
    /// Maximum fallback-FEL records assigned to one LP.
    pub fallback_fel_events_per_lp: Option<usize>,
    /// Maximum queued packet records assigned to one LP.
    pub queue_packets_per_lp: Option<usize>,
    /// Plane-wide starting cap applied independently to each incoming-channel stream.
    pub channel_events_per_stream: Option<usize>,
    /// Maximum remote staging records assigned independently to one destination LP.
    pub remote_staging_events_per_lp: Option<usize>,
    /// Maximum total producer-outbox records for one round.
    pub outbox_events_total: Option<usize>,
    /// Maximum out-of-order TCP receive ranges assigned to one flow.
    pub tcp_receiver_ranges_per_flow: Option<usize>,
    /// Maximum TCP segment-ledger records assigned to one flow.
    pub tcp_ledger_segments_per_flow: Option<usize>,
    /// Maximum observed-packet, departure, and arrival records assigned to one LP and plane.
    pub observation_events_per_lp: Option<usize>,
}

/// Retry-time lower bounds for capacities that proved too small in an earlier all-or-nothing
/// device attempt. Zero leaves the derived planner capacity unchanged.
#[derive(Clone, Copy, Debug, Default, PartialEq, Eq, Structural)]
pub struct DeviceCapacityFloors {
    pub fallback_fel_events_per_lp: usize,
    pub queue_packets_per_lp: usize,
    pub channel_events_per_stream: usize,
    pub service_events_per_stream: usize,
    pub generator_events_per_stream: usize,
    pub remote_staging_events_per_lp: usize,
    pub outbox_events_total: usize,
    pub tcp_receiver_ranges_per_flow: usize,
    pub tcp_ledger_segments_per_flow: usize,
    pub observation_events: usize,
    pub worklist_entries_total: usize,
}

pub open spec fn umax(a: usize, b: usize) -> usize {
    if a >= b { a } else { b }
}

pub open spec fn umin(a: usize, b: usize) -> usize {
    if a <= b { a } else { b }
}

fn max_usize(a: usize, b: usize) -> (m: usize)
    ensures
        m == umax(a, b),
{
    if a >= b { a } else { b }
}

fn min_usize(a: usize, b: usize) -> (m: usize)
    ensures
        m == umin(a, b),
{
    if a <= b { a } else { b }
}

/// The lane-by-lane maximum of two floor sets.
pub open spec fn spec_merged_floors(a: DeviceCapacityFloors, b: DeviceCapacityFloors) -> DeviceCapacityFloors {
    DeviceCapacityFloors {
        fallback_fel_events_per_lp: umax(a.fallback_fel_events_per_lp, b.fallback_fel_events_per_lp),
        queue_packets_per_lp: umax(a.queue_packets_per_lp, b.queue_packets_per_lp),
        channel_events_per_stream: umax(a.channel_events_per_stream, b.channel_events_per_stream),
        service_events_per_stream: umax(a.service_events_per_stream, b.service_events_per_stream),
        generator_events_per_stream: umax(a.generator_events_per_stream, b.generator_events_per_stream),
        remote_staging_events_per_lp: umax(
            a.remote_staging_events_per_lp,
            b.remote_staging_events_per_lp,
        ),
        outbox_events_total: umax(a.outbox_events_total, b.outbox_events_total),
        tcp_receiver_ranges_per_flow: umax(
            a.tcp_receiver_ranges_per_flow,
            b.tcp_receiver_ranges_per_flow,
        ),
        tcp_ledger_segments_per_flow: umax(
            a.tcp_ledger_segments_per_flow,
            b.tcp_ledger_segments_per_flow,
        ),
        observation_events: umax(a.observation_events, b.observation_events),
        worklist_entries_total: umax(a.worklist_entries_total, b.worklist_entries_total),
    }
}

pub open spec fn spec_zero_floors() -> DeviceCapacityFloors {
    DeviceCapacityFloors {
        fallback_fel_events_per_lp: 0,
        queue_packets_per_lp: 0,
        channel_events_per_stream: 0,
        service_events_per_stream: 0,
        generator_events_per_stream: 0,
        remote_staging_events_per_lp: 0,
        outbox_events_total: 0,
        tcp_receiver_ranges_per_flow: 0,
        tcp_ledger_segments_per_flow: 0,
        observation_events: 0,
        worklist_entries_total: 0,
    }
}

impl DeviceCapacityFloors {
    /// All-zero floors: every derived capacity is used unchanged.
    pub fn zero() -> (floors: DeviceCapacityFloors)
        ensures
            floors == spec_zero_floors(),
    {
        DeviceCapacityFloors {
            fallback_fel_events_per_lp: 0,
            queue_packets_per_lp: 0,
            channel_events_per_stream: 0,
            service_events_per_stream: 0,
            generator_events_per_stream: 0,
            remote_staging_events_per_lp: 0,
            outbox_events_total: 0,
            tcp_receiver_ranges_per_flow: 0,
            tcp_ledger_segments_per_flow: 0,
            observation_events: 0,
            worklist_entries_total: 0,
        }
    }

    /// Field-wise maximum of two floor sets.
    ///
    /// Floors are lower bounds, so combining two of them is a maximum in every lane.
    pub fn merged_with(self, other: Self) -> (merged: DeviceCapacityFloors)
        ensures
            merged == spec_merged_floors(self, other),
    {
        DeviceCapacityFloors {
            fallback_fel_events_per_lp: max_usize(
                self.fallback_fel_events_per_lp,
                other.fallback_fel_events_per_lp,
            ),
            queue_packets_per_lp: max_usize(self.queue_packets_per_lp, other.queue_packets_per_lp),
            channel_events_per_stream: max_usize(
                self.channel_events_per_stream,
                other.channel_events_per_stream,
            ),
            service_events_per_stream: max_usize(
                self.service_events_per_stream,
                other.service_events_per_stream,
            ),
            generator_events_per_stream: max_usize(
                self.generator_events_per_stream,
                other.generator_events_per_stream,
            ),
            remote_staging_events_per_lp: max_usize(
                self.remote_staging_events_per_lp,
                other.remote_staging_events_per_lp,
            ),
            outbox_events_total: max_usize(self.outbox_events_total, other.outbox_events_total),
            tcp_receiver_ranges_per_flow: max_usize(
                self.tcp_receiver_ranges_per_flow,
                other.tcp_receiver_ranges_per_flow,
            ),
            tcp_ledger_segments_per_flow: max_usize(
                self.tcp_ledger_segments_per_flow,
                other.tcp_ledger_segments_per_flow,
            ),
            observation_events: max_usize(self.observation_events, other.observation_events),
            worklist_entries_total: max_usize(
                self.worklist_entries_total,
                other.worklist_entries_total,
            ),
        }
    }
}

/// Law: merging floors is a lattice join. It is commutative, associative and idempotent, zero is
/// its identity, and the merge never lies below either operand in any lane.
pub proof fn law_floor_merge_is_a_join(
    a: DeviceCapacityFloors,
    b: DeviceCapacityFloors,
    c: DeviceCapacityFloors,
)
    ensures
        spec_merged_floors(a, b) == spec_merged_floors(b, a),
        spec_merged_floors(spec_merged_floors(a, b), c) == spec_merged_floors(
            a,
            spec_merged_floors(b, c),
        ),
        spec_merged_floors(a, a) == a,
        spec_merged_floors(a, spec_zero_floors()) == a,
        spec_merged_floors(a, b).queue_packets_per_lp >= a.queue_packets_per_lp,
        spec_merged_floors(a, b).fallback_fel_events_per_lp >= a.fallback_fel_events_per_lp,
        spec_merged_floors(a, b).worklist_entries_total >= a.worklist_entries_total,
        spec_merged_floors(a, b).observation_events >= a.observation_events,
{
}

/// Merging two floor sets takes, lane by lane, the larger of the two floors: every merged lane
/// is at least each operand's lane and is one of them.
pub proof fn law_floor_merge_is_lanewise_maximum(a: DeviceCapacityFloors, b: DeviceCapacityFloors)
    ensures
        ({
            let m = spec_merged_floors(a, b);
            &&& m.fallback_fel_events_per_lp >= a.fallback_fel_events_per_lp
            &&& m.fallback_fel_events_per_lp >= b.fallback_fel_events_per_lp
            &&& (m.fallback_fel_events_per_lp == a.fallback_fel_events_per_lp
                || m.fallback_fel_events_per_lp == b.fallback_fel_events_per_lp)
            &&& m.queue_packets_per_lp >= a.queue_packets_per_lp
            &&& m.queue_packets_per_lp >= b.queue_packets_per_lp
            &&& (m.queue_packets_per_lp == a.queue_packets_per_lp || m.queue_packets_per_lp
                == b.queue_packets_per_lp)
            &&& m.channel_events_per_stream >= a.channel_events_per_stream
            &&& m.channel_events_per_stream >= b.channel_events_per_stream
            &&& (m.channel_events_per_stream == a.channel_events_per_stream
                || m.channel_events_per_stream == b.channel_events_per_stream)
            &&& m.service_events_per_stream >= a.service_events_per_stream
            &&& m.service_events_per_stream >= b.service_events_per_stream
            &&& (m.service_events_per_stream == a.service_events_per_stream
                || m.service_events_per_stream == b.service_events_per_stream)
            &&& m.generator_events_per_stream >= a.generator_events_per_stream
            &&& m.generator_events_per_stream >= b.generator_events_per_stream
            &&& (m.generator_events_per_stream == a.generator_events_per_stream
                || m.generator_events_per_stream == b.generator_events_per_stream)
            &&& m.remote_staging_events_per_lp >= a.remote_staging_events_per_lp
            &&& m.remote_staging_events_per_lp >= b.remote_staging_events_per_lp
            &&& (m.remote_staging_events_per_lp == a.remote_staging_events_per_lp
                || m.remote_staging_events_per_lp == b.remote_staging_events_per_lp)
            &&& m.outbox_events_total >= a.outbox_events_total
            &&& m.outbox_events_total >= b.outbox_events_total
            &&& (m.outbox_events_total == a.outbox_events_total || m.outbox_events_total
                == b.outbox_events_total)
            &&& m.tcp_receiver_ranges_per_flow >= a.tcp_receiver_ranges_per_flow
            &&& m.tcp_receiver_ranges_per_flow >= b.tcp_receiver_ranges_per_flow
            &&& (m.tcp_receiver_ranges_per_flow == a.tcp_receiver_ranges_per_flow
                || m.tcp_receiver_ranges_per_flow == b.tcp_receiver_ranges_per_flow)
            &&& m.tcp_ledger_segments_per_flow >= a.tcp_ledger_segments_per_flow
            &&& m.tcp_ledger_segments_per_flow >= b.tcp_ledger_segments_per_flow
            &&& (m.tcp_ledger_segments_per_flow == a.tcp_ledger_segments_per_flow
                || m.tcp_ledger_segments_per_flow == b.tcp_ledger_segments_per_flow)
            &&& m.observation_events >= a.observation_events
            &&& m.observation_events >= b.observation_events
            &&& (m.observation_events == a.observation_events || m.observation_events
                == b.observation_events)
            &&& m.worklist_entries_total >= a.worklist_entries_total
            &&& m.worklist_entries_total >= b.worklist_entries_total
            &&& (m.worklist_entries_total == a.worklist_entries_total || m.worklist_entries_total
                == b.worklist_entries_total)
        }),
{
}

/// The capacity a converged device attempt planned with, replayable as the starting capacity of
/// a later run of the same image.
///
/// Every vector is a sparse, ascending, key-deduplicated association list, so a snapshot has one
/// canonical form and two runs of the same image emit the same bytes.
#[derive(Clone, Debug, Default, PartialEq, Eq)]
pub struct CapacityWarmStart {
    /// Converged lower bounds for the arenas that are sized plane-wide rather than per entity.
    pub floors: DeviceCapacityFloors,
    /// `(immutable channel index, capacity)` for every channel-inbox stream a retry grew.
    pub channel_events_by_stream: Vec<(usize, usize)>,
    /// `(planned base capacity, capacity)` for every TCP receiver-range class a retry grew.
    pub tcp_receiver_ranges_by_base: Vec<(usize, usize)>,
    /// `(flow, capacity)` for every TCP segment-ledger row a retry grew.
    pub tcp_ledger_segments_by_flow: Vec<(usize, usize)>,
}

impl CapacityWarmStart {
    /// True when the snapshot constrains nothing, which is exactly the stock starting point.
    pub fn is_empty(&self) -> (empty: bool)
        ensures
            empty == (self.floors == spec_zero_floors() && self.channel_events_by_stream@.len() == 0
                && self.tcp_receiver_ranges_by_base@.len() == 0
                && self.tcp_ledger_segments_by_flow@.len() == 0),
    {
        self.floors == DeviceCapacityFloors::zero() && self.channel_events_by_stream.len() == 0
            && self.tcp_receiver_ranges_by_base.len() == 0
            && self.tcp_ledger_segments_by_flow.len() == 0
    }
}


/// Saturates an exact value into `usize`.
pub open spec fn sat(x: int) -> usize {
    if x > usize::MAX { usize::MAX } else if x < 0 { 0 } else { x as usize }
}

fn saturating_mul_usize(a: usize, b: usize) -> (product: usize)
    ensures
        product == sat(a * b),
{
    match a.checked_mul(b) {
        Some(product) => product,
        None => usize::MAX,
    }
}

/// Retry slack added to a grown TCP receiver-range class.
pub const TCP_RECEIVER_RETRY_SLACK: usize = 64;

/// Retry slack added to a grown TCP segment ledger when a fault carries no occupancy vector.
pub const TCP_LEDGER_RETRY_SLACK: usize = 256;

/// Multiplier applied to a flow's observed ledger high-water when a fault reports the whole
/// per-flow occupancy vector.
pub const TCP_LEDGER_OCCUPANCY_SLACK_FACTOR: usize = 8;

/// Constant record allowance added on top of the scaled high-water.
pub const TCP_LEDGER_OCCUPANCY_SLACK_RECORDS: usize = 8;

pub open spec fn spec_ledger_capacity_from_high_water(high_water: usize) -> usize {
    sat(sat(high_water * TCP_LEDGER_OCCUPANCY_SLACK_FACTOR) + TCP_LEDGER_OCCUPANCY_SLACK_RECORDS)
}

/// Per-flow ledger capacity implied by one observed occupancy high-water mark.
pub fn ledger_capacity_from_high_water(high_water: usize) -> (capacity: usize)
    ensures
        capacity == spec_ledger_capacity_from_high_water(high_water),
{
    saturating_mul_usize(high_water, TCP_LEDGER_OCCUPANCY_SLACK_FACTOR).saturating_add(
        TCP_LEDGER_OCCUPANCY_SLACK_RECORDS,
    )
}

/// The occupancy entry of `flow`, reading past the end of the vector as zero.
pub open spec fn spec_high_water_at(high_water: Seq<u32>, flow: usize) -> usize {
    if flow < high_water.len() { high_water[flow as int] as usize } else { 0 }
}

/// The faulting flow's own entry in a ledger fault's occupancy vector, when both are present.
pub fn observed_ledger_high_water(high_water: Option<&[u32]>, flow: Option<FlowId>) -> (observed:
    Option<usize>)
    ensures
        observed == match (high_water, flow) {
            (Some(vector), Some(flow)) => Some(spec_high_water_at(vector@, flow.0 as usize)),
            _ => None::<usize>,
        },
{
    let vector = match high_water {
        None => return None,
        Some(vector) => vector,
    };
    let flow = match flow {
        None => return None,
        Some(flow) => flow,
    };
    let slot = flow.0 as usize;
    if slot < vector.len() {
        Some(vector[slot] as usize)
    } else {
        Some(0)
    }
}

pub open spec fn spec_grown_capacity(capacity: usize, demand: usize) -> usize {
    sat(2 * umax(demand, sat(capacity + 1)))
}

/// Geometric retry growth: twice the larger of the demand and `capacity + 1`, saturating.
pub fn grown_capacity(capacity: usize, demand: usize) -> (grown: usize)
    ensures
        grown == spec_grown_capacity(capacity, demand),
{
    let basis = max_usize(demand, capacity.saturating_add(1));
    max_usize(saturating_mul_usize(basis, 2), basis)
}

pub open spec fn spec_grown_capacity_with_slack(capacity: usize, demand: usize, slack: usize) -> usize {
    sat(umax(demand, sat(capacity + 1)) + slack)
}

/// Additive retry growth: the larger of the demand and `capacity + 1`, plus `slack`, saturating.
pub fn grown_capacity_with_slack(capacity: usize, demand: usize, slack: usize) -> (grown: usize)
    ensures
        grown == spec_grown_capacity_with_slack(capacity, demand, slack),
{
    max_usize(demand, capacity.saturating_add(1)).saturating_add(slack)
}

pub open spec fn spec_grown_ledger_capacity(
    capacity: usize,
    demand: usize,
    high_water: Option<usize>,
) -> usize {
    match high_water {
        Some(high_water) => umax(
            umax(spec_ledger_capacity_from_high_water(high_water), demand),
            sat(capacity + 1),
        ),
        None => spec_grown_capacity_with_slack(capacity, demand, TCP_LEDGER_RETRY_SLACK),
    }
}

/// The replacement capacity for the flow a ledger fault named.
///
/// With an occupancy vector the flow is sized from its own observation; `max(demand, capacity +
/// 1)` keeps strict progress even against a short or stale vector. Without one, the additive
/// ledger slack applies.
pub fn grown_ledger_capacity(capacity: usize, demand: usize, high_water: Option<usize>) -> (grown:
    usize)
    ensures
        grown == spec_grown_ledger_capacity(capacity, demand, high_water),
{
    match high_water {
        Some(high_water) => max_usize(
            max_usize(ledger_capacity_from_high_water(high_water), demand),
            capacity.saturating_add(1),
        ),
        None => grown_capacity_with_slack(capacity, demand, TCP_LEDGER_RETRY_SLACK),
    }
}

/// Law: every retry growth rule makes strict progress past the failed capacity (unless it is
/// already `usize::MAX`) and covers the reported demand.
pub proof fn law_growth_strictly_progresses(
    capacity: usize,
    demand: usize,
    slack: usize,
    high_water: Option<usize>,
)
    ensures
        spec_grown_capacity(capacity, demand) >= demand,
        capacity < usize::MAX ==> spec_grown_capacity(capacity, demand) > capacity,
        spec_grown_capacity_with_slack(capacity, demand, slack) >= demand,
        capacity < usize::MAX ==> spec_grown_capacity_with_slack(capacity, demand, slack)
            > capacity,
        spec_grown_ledger_capacity(capacity, demand, high_water) >= demand,
        capacity < usize::MAX ==> spec_grown_ledger_capacity(capacity, demand, high_water)
            > capacity,
{
}

pub open spec fn spec_cap_derived_capacity(derived: usize, cap: Option<usize>, resident: usize) -> usize {
    umax(
        match cap {
            None => derived,
            Some(cap) => umin(derived, cap),
        },
        resident,
    )
}

/// `max(min(derived, cap), resident)`: a cap never excludes a resident record.
pub fn cap_derived_capacity(derived: usize, cap: Option<usize>, resident: usize) -> (capacity: usize)
    ensures
        capacity == spec_cap_derived_capacity(derived, cap, resident),
{
    let capped = match cap {
        None => derived,
        Some(cap) => min_usize(derived, cap),
    };
    max_usize(capped, resident)
}

pub open spec fn spec_bound_derived_capacity(
    derived: usize,
    cap: Option<usize>,
    floor: usize,
    resident: usize,
) -> usize {
    umax(spec_cap_derived_capacity(derived, cap, resident), floor)
}

/// `max(min(derived, cap), resident, floor)`.
pub fn bound_derived_capacity(derived: usize, cap: Option<usize>, floor: usize, resident: usize) -> (capacity:
    usize)
    ensures
        capacity == spec_bound_derived_capacity(derived, cap, floor, resident),
{
    max_usize(cap_derived_capacity(derived, cap, resident), floor)
}

pub open spec fn spec_raised_cap(cap: Option<usize>, capacity: usize, grown: usize) -> Option<usize> {
    match cap {
        Some(value) => if value == capacity {
            Some(umax(value, grown))
        } else {
            Some(value)
        },
        None => None,
    }
}

/// Raises the cap when it equals the failed capacity, and raises the floor in any case.
///
/// Equality with the cap does not prove that the cap alone bound the capacity (the derived or the
/// resident count may tie it), so the floor always rises too.
pub fn raise_cap_or_floor(cap: &mut Option<usize>, floor: &mut usize, capacity: usize, grown: usize)
    ensures
        *final(cap) == spec_raised_cap(*old(cap), capacity, grown),
        *final(floor) == umax(*old(floor), grown),
{
    match cap {
        Some(value) => {
            if *value == capacity {
                *value = max_usize(*value, grown);
            }
        },
        None => {},
    }
    *floor = max_usize(*floor, grown);
}

/// Raises an explicit override when it equals the failed capacity; otherwise raises the cap or
/// the floor.
pub fn raise_override_cap_or_floor(
    override_capacity: &mut Option<usize>,
    cap: &mut Option<usize>,
    floor: &mut usize,
    capacity: usize,
    grown: usize,
)
    ensures
        *old(override_capacity) == Some(capacity) ==> {
            &&& *final(override_capacity) == Some(umax(capacity, grown))
            &&& *final(cap) == *old(cap)
            &&& *final(floor) == *old(floor)
        },
        *old(override_capacity) != Some(capacity) ==> {
            &&& *final(override_capacity) == *old(override_capacity)
            &&& *final(cap) == spec_raised_cap(*old(cap), capacity, grown)
            &&& *final(floor) == umax(*old(floor), grown)
        },
{
    match override_capacity {
        Some(value) => {
            if *value == capacity {
                *value = max_usize(*value, grown);
                return ;
            }
        },
        None => {},
    }
    raise_cap_or_floor(cap, floor, capacity, grown);
}

/// Law: a capacity retry strictly raises the effective capacity. After a fault at the planned
/// capacity `max(min(derived, cap), resident, floor)` with any `grown` above it, raising the cap
/// or floor makes the next plan at least `grown`, never below the resident records, and never
/// discards the cap.
pub proof fn law_retry_raises_effective_capacity(
    derived: usize,
    cap: Option<usize>,
    floor: usize,
    resident: usize,
    grown: usize,
)
    requires
        grown > spec_bound_derived_capacity(derived, cap, floor, resident),
    ensures
        ({
            let capacity = spec_bound_derived_capacity(derived, cap, floor, resident);
            let next = spec_bound_derived_capacity(
                derived,
                spec_raised_cap(cap, capacity, grown),
                umax(floor, grown),
                resident,
            );
            &&& next >= grown
            &&& next > capacity
            &&& next >= resident
            &&& spec_raised_cap(cap, capacity, grown) is Some == cap is Some
        }),
{
}

/// The recorded base of an entity, reading past the end of the table as unrecorded.
pub open spec fn spec_base_at(bases: Seq<Option<usize>>, slot: usize) -> Option<usize> {
    if slot < bases.len() { bases[slot as int] } else { None }
}

pub open spec fn spec_floor_at(floors: Seq<(usize, usize)>, key: usize) -> usize {
    match spec_lookup(floors, key) {
        None => 0,
        Some(capacity) => capacity,
    }
}

/// The table after recording `base` for `slot` when the slot had no base yet.
pub open spec fn spec_recorded(bases: Seq<Option<usize>>, slot: usize, base: usize) -> Seq<
    Option<usize>,
> {
    if spec_base_at(bases, slot) is Some {
        bases
    } else {
        Seq::new(
            if slot < bases.len() { bases.len() } else { (slot + 1) as nat },
            |i: int| if i == slot { Some(base) } else if i < bases.len() { bases[i] } else { None },
        )
    }
}

/// Records `base` for `slot` unless a base is already there; reports whether the table agrees.
fn record_base(bases: &mut Vec<Option<usize>>, slot: usize, base: usize) -> (agrees: bool)
    requires
        slot < usize::MAX,
    ensures
        agrees == match spec_base_at(old(bases)@, slot) {
            Some(recorded) => recorded == base,
            None => true,
        },
        final(bases)@ == spec_recorded(old(bases)@, slot, base),
{
    let ghost initial = bases@;
    while bases.len() <= slot
        invariant
            slot < usize::MAX,
            initial.len() <= bases@.len(),
            bases@.len() > initial.len() ==> bases@.len() <= slot + 1,
            forall|i: int| 0 <= i < initial.len() ==> bases@[i] == initial[i],
            forall|i: int| initial.len() <= i < bases@.len() ==> bases@[i] is None,
        decreases slot + 1 - bases@.len(),
    {
        bases.push(None);
    }
    match bases[slot] {
        Some(recorded) => {
            proof {
                assert(slot < initial.len());
                assert(bases@ =~= initial);
            }
            recorded == base
        },
        None => {
            bases.set(slot, Some(base));
            proof {
                assert(bases@ =~= spec_recorded(initial, slot, base));
            }
            true
        },
    }
}

/// Retry-time channel floors keyed by the immutable channel-stream index in the image.
///
/// The device reports one deterministic stream per failed attempt, and only that stream receives
/// a higher floor for its replacement plan.
#[derive(Clone, Debug, Default, PartialEq, Eq)]
pub struct ChannelCapacityFloors {
    base_by_stream: Vec<Option<usize>>,
    capacity_by_stream: CapacityMap,
}

impl ChannelCapacityFloors {
    pub closed spec fn bases(&self) -> Seq<Option<usize>> {
        self.base_by_stream@
    }

    pub closed spec fn floors(&self) -> Seq<(usize, usize)> {
        self.capacity_by_stream.entries_seq()
    }

    pub open spec fn wf(&self) -> bool {
        keys_ascend(self.floors())
    }

    /// No stream has a base or a floor yet.
    pub fn new() -> (floors: ChannelCapacityFloors)
        ensures
            floors.wf(),
            floors.bases().len() == 0,
            floors.floors().len() == 0,
    {
        ChannelCapacityFloors { base_by_stream: Vec::new(), capacity_by_stream: CapacityMap::new() }
    }

    /// Starts from a warm start's per-stream capacities instead of from nothing.
    pub fn warm_started(capacities: &[(usize, usize)]) -> (floors: ChannelCapacityFloors)
        ensures
            floors.wf(),
            floors.bases().len() == 0,
            floors.floors() == spec_merge_all(capacities@),
    {
        ChannelCapacityFloors {
            base_by_stream: Vec::new(),
            capacity_by_stream: CapacityMap::from_pairs(capacities),
        }
    }

    /// The per-stream capacities this run converged on, in canonical ascending order.
    pub fn converged_capacities(&self) -> (capacities: Vec<(usize, usize)>)
        ensures
            capacities@ == self.floors(),
    {
        self.capacity_by_stream.to_vec()
    }

    /// The planned capacity of `stream`: `max(base, floor)`. The first call records the stream's
    /// base; a later call with a different base is refused with `None`.
    pub fn channel(&mut self, stream: usize, base: usize) -> (capacity: Option<usize>)
        requires
            old(self).wf(),
            stream < usize::MAX,
        ensures
            final(self).wf(),
            final(self).floors() == old(self).floors(),
            final(self).bases() == spec_recorded(old(self).bases(), stream, base),
            capacity == match spec_base_at(old(self).bases(), stream) {
                Some(recorded) => if recorded != base {
                    None
                } else {
                    Some(umax(base, spec_floor_at(old(self).floors(), stream)))
                },
                None => Some(umax(base, spec_floor_at(old(self).floors(), stream))),
            },
    {
        let agrees = record_base(&mut self.base_by_stream, stream, base);
        if !agrees {
            return None;
        }
        Some(max_usize(base, self.capacity_by_stream.floor(stream)))
    }

    /// Raises the floor of `stream` to `grown` after a fault at its current planned capacity.
    /// Refuses (with `false`, changing nothing) a stream with no base or a stale capacity.
    pub fn raise(&mut self, stream: usize, capacity: usize, grown: usize) -> (raised: bool)
        requires
            old(self).wf(),
        ensures
            final(self).wf(),
            final(self).bases() == old(self).bases(),
            raised == match spec_base_at(old(self).bases(), stream) {
                Some(base) => umax(base, spec_floor_at(old(self).floors(), stream)) == capacity,
                None => false,
            },
            raised ==> final(self).floors() == spec_raise(old(self).floors(), stream, grown),
            !raised ==> final(self).floors() == old(self).floors(),
    {
        let base = if stream < self.base_by_stream.len() {
            match self.base_by_stream[stream] {
                None => return false,
                Some(base) => base,
            }
        } else {
            return false;
        };
        if max_usize(base, self.capacity_by_stream.floor(stream)) != capacity {
            return false;
        }
        proof {
            lemma_raise(self.capacity_by_stream.entries_seq(), stream, grown);
        }
        self.capacity_by_stream.raise(stream, grown);
        true
    }
}

/// The per-flow ledger floor, reading past the end of the vector as zero.
pub open spec fn spec_ledger_floor_at(floors: Seq<usize>, flow: usize) -> usize {
    if flow < floors.len() { floors[flow as int] } else { 0 }
}

/// The `(flow, capacity)` pairs of the nonzero floors among the first `n` flows, ascending.
pub open spec fn spec_nonzero_floors(floors: Seq<usize>, n: int) -> Seq<(usize, usize)>
    decreases n,
{
    if n <= 0 {
        Seq::empty()
    } else if floors[n - 1] != 0 {
        spec_nonzero_floors(floors, n - 1).push(((n - 1) as usize, floors[n - 1]))
    } else {
        spec_nonzero_floors(floors, n - 1)
    }
}

/// Retry-time TCP floors: receiver ranges by planned-capacity class, segment ledgers per flow.
///
/// Receiver ranges keep class keying: equivalent flows grow together after one representative
/// row overflows. Segment ledgers are keyed by flow, so a faulting flow's growth is never
/// inherited by an equivalent flow.
#[derive(Clone, Debug, Default, PartialEq, Eq)]
pub struct TcpCapacityFloors {
    receiver_base_by_flow: Vec<Option<usize>>,
    ledger_base_by_flow: Vec<Option<usize>>,
    receiver_ranges: CapacityMap,
    ledger_segments_by_flow: Vec<usize>,
}

impl TcpCapacityFloors {
    pub closed spec fn receiver_bases(&self) -> Seq<Option<usize>> {
        self.receiver_base_by_flow@
    }

    pub closed spec fn ledger_bases(&self) -> Seq<Option<usize>> {
        self.ledger_base_by_flow@
    }

    pub closed spec fn receiver_floors(&self) -> Seq<(usize, usize)> {
        self.receiver_ranges.entries_seq()
    }

    pub closed spec fn ledger_floors(&self) -> Seq<usize> {
        self.ledger_segments_by_flow@
    }

    pub open spec fn wf(&self) -> bool {
        keys_ascend(self.receiver_floors())
    }

    /// No flow has a base or a floor yet.
    pub fn new() -> (floors: TcpCapacityFloors)
        ensures
            floors.wf(),
            floors.receiver_bases().len() == 0,
            floors.ledger_bases().len() == 0,
            floors.receiver_floors().len() == 0,
            floors.ledger_floors().len() == 0,
    {
        TcpCapacityFloors {
            receiver_base_by_flow: Vec::new(),
            ledger_base_by_flow: Vec::new(),
            receiver_ranges: CapacityMap::new(),
            ledger_segments_by_flow: Vec::new(),
        }
    }

    /// Starts from a warm start's receiver classes and per-flow ledger capacities.
    ///
    /// `flows` bounds the per-flow lane at the replaying image's own flow count: a snapshot entry
    /// for a flow the image does not plan is dropped.
    pub fn warm_started(
        receiver_ranges: &[(usize, usize)],
        ledger_segments: &[(usize, usize)],
        flows: usize,
    ) -> (floors: TcpCapacityFloors)
        ensures
            floors.wf(),
            floors.receiver_bases().len() == 0,
            floors.ledger_bases().len() == 0,
            floors.receiver_floors() == spec_merge_all(receiver_ranges@),
            floors.ledger_floors().len() <= flows,
            forall|flow: usize|
                #![trigger spec_ledger_floor_at(floors.ledger_floors(), flow)]
                spec_ledger_floor_at(floors.ledger_floors(), flow) == if flow < flows {
                    spec_floor_at(spec_merge_all(ledger_segments@), flow)
                } else {
                    0
                },
            spec_nonzero_floors(floors.ledger_floors(), floors.ledger_floors().len() as int)
                == spec_kept_segments(spec_merge_all(ledger_segments@), flows),
    {
        let merged = CapacityMap::from_pairs(ledger_segments);
        let entries = merged.to_vec();
        let length = if entries.len() == 0 {
            0
        } else {
            min_usize(entries[entries.len() - 1].0.saturating_add(1), flows)
        };
        let mut by_flow: Vec<usize> = Vec::new();
        while by_flow.len() < length
            invariant
                by_flow@.len() <= length,
                forall|i: int| 0 <= i < by_flow@.len() ==> by_flow@[i] == 0,
            decreases length - by_flow@.len(),
        {
            by_flow.push(0);
        }
        let mut i: usize = 0;
        while i < entries.len()
            invariant
                i <= entries@.len(),
                entries@ == merged.entries_seq(),
                keys_ascend(entries@),
                by_flow@.len() == length,
                length <= flows,
                entries@.len() > 0 ==> length == umin(sat(entries@.last().0 + 1), flows),
                entries@.len() == 0 ==> length == 0,
                forall|f: int|
                    0 <= f < length ==> #[trigger] by_flow@[f] == match spec_lookup(
                        entries@.subrange(0, i as int),
                        f as usize,
                    ) {
                        None => 0,
                        Some(c) => c,
                    },
            decreases entries@.len() - i,
        {
            let (flow, capacity) = entries[i];
            proof {
                let prefix = entries@.subrange(0, i as int);
                let next = entries@.subrange(0, i + 1);
                assert forall|f: usize| #[trigger] spec_lookup(next, f) == if f == flow {
                    Some(capacity)
                } else {
                    spec_lookup(prefix, f)
                } by {
                    lemma_lookup_append(prefix, (flow, capacity), f);
                    assert(next =~= prefix.push((flow, capacity)));
                }
            }
            if flow < by_flow.len() {
                by_flow.set(flow, capacity);
            }
            i = i + 1;
        }
        proof {
            assert(entries@.subrange(0, entries@.len() as int) =~= entries@);
            assert forall|flow: usize| #[trigger] spec_ledger_floor_at(by_flow@, flow) == if flow
                < flows {
                spec_floor_at(spec_merge_all(ledger_segments@), flow)
            } else {
                0
            } by {
                if flow >= length && flow < flows {
                    if spec_lookup(entries@, flow) is Some {
                        lemma_lookup_some(entries@, flow);
                        let j = choose|j: int|
                            0 <= j < entries@.len() && entries@[j].0 == flow && entries@[j].1
                                == spec_lookup(entries@, flow)->Some_0;
                        assert(entries@[j].0 <= entries@.last().0);
                    }
                }
            }
        }
        proof {
            lemma_nonzero_floors_kept(by_flow@, spec_merge_all(ledger_segments@), flows);
        }
        TcpCapacityFloors {
            receiver_base_by_flow: Vec::new(),
            ledger_base_by_flow: Vec::new(),
            receiver_ranges: CapacityMap::from_pairs(receiver_ranges),
            ledger_segments_by_flow: by_flow,
        }
    }

    /// The receiver-range classes this run converged on, in canonical ascending order.
    pub fn converged_receiver_ranges(&self) -> (ranges: Vec<(usize, usize)>)
        ensures
            ranges@ == self.receiver_floors(),
    {
        self.receiver_ranges.to_vec()
    }

    /// The per-flow ledger capacities this run converged on, in ascending flow order. Flows still
    /// at zero are omitted.
    pub fn converged_ledger_segments(&self) -> (segments: Vec<(usize, usize)>)
        ensures
            segments@ == spec_nonzero_floors(
                self.ledger_floors(),
                self.ledger_floors().len() as int,
            ),
    {
        let mut segments: Vec<(usize, usize)> = Vec::new();
        let mut flow: usize = 0;
        while flow < self.ledger_segments_by_flow.len()
            invariant
                flow <= self.ledger_segments_by_flow@.len(),
                segments@ == spec_nonzero_floors(self.ledger_segments_by_flow@, flow as int),
            decreases self.ledger_segments_by_flow@.len() - flow,
        {
            let capacity = self.ledger_segments_by_flow[flow];
            if capacity != 0 {
                segments.push((flow, capacity));
            }
            flow = flow + 1;
        }
        segments
    }

    fn ledger_floor(&self, flow: FlowId) -> (floor: usize)
        ensures
            floor == spec_ledger_floor_at(self.ledger_floors(), flow.0 as usize),
    {
        let slot = flow.0 as usize;
        if slot < self.ledger_segments_by_flow.len() {
            self.ledger_segments_by_flow[slot]
        } else {
            0
        }
    }

    /// The planned receiver-range capacity of `flow`: `max(base, class floor of base)`. The
    /// first call records the flow's base class; a later call with another base is refused.
    pub fn receiver(&mut self, flow: FlowId, base: usize) -> (capacity: Option<usize>)
        requires
            old(self).wf(),
            (flow.0 as usize) < usize::MAX,
        ensures
            final(self).wf(),
            final(self).receiver_bases() == spec_recorded(
                old(self).receiver_bases(),
                flow.0 as usize,
                base,
            ),
            final(self).ledger_bases() == old(self).ledger_bases(),
            final(self).receiver_floors() == old(self).receiver_floors(),
            final(self).ledger_floors() == old(self).ledger_floors(),
            capacity == match spec_base_at(old(self).receiver_bases(), flow.0 as usize) {
                Some(recorded) => if recorded != base {
                    None
                } else {
                    Some(umax(base, spec_floor_at(old(self).receiver_floors(), base)))
                },
                None => Some(umax(base, spec_floor_at(old(self).receiver_floors(), base))),
            },
    {
        if !record_base(&mut self.receiver_base_by_flow, flow.0 as usize, base) {
            return None;
        }
        Some(max_usize(base, self.receiver_ranges.floor(base)))
    }

    /// The planned ledger capacity of `flow`: `max(base, that flow's own floor)`. The first call
    /// records the flow's base; a later call with another base is refused.
    pub fn ledger(&mut self, flow: FlowId, base: usize) -> (capacity: Option<usize>)
        requires
            old(self).wf(),
            (flow.0 as usize) < usize::MAX,
        ensures
            final(self).wf(),
            final(self).ledger_bases() == spec_recorded(
                old(self).ledger_bases(),
                flow.0 as usize,
                base,
            ),
            final(self).receiver_bases() == old(self).receiver_bases(),
            final(self).receiver_floors() == old(self).receiver_floors(),
            final(self).ledger_floors() == old(self).ledger_floors(),
            capacity == match spec_base_at(old(self).ledger_bases(), flow.0 as usize) {
                Some(recorded) => if recorded != base {
                    None
                } else {
                    Some(umax(base, spec_ledger_floor_at(old(self).ledger_floors(), flow.0 as usize)))
                },
                None => Some(umax(base, spec_ledger_floor_at(old(self).ledger_floors(), flow.0 as usize))),
            },
    {
        if !record_base(&mut self.ledger_base_by_flow, flow.0 as usize, base) {
            return None;
        }
        Some(max_usize(base, self.ledger_floor(flow)))
    }

    /// Raises the receiver-range class of `flow` to `grown` after a fault at its planned capacity.
    /// Every flow planned in the same class inherits the growth.
    pub fn raise_receiver(&mut self, flow: FlowId, capacity: usize, grown: usize) -> (raised: bool)
        requires
            old(self).wf(),
        ensures
            final(self).wf(),
            final(self).receiver_bases() == old(self).receiver_bases(),
            final(self).ledger_bases() == old(self).ledger_bases(),
            final(self).ledger_floors() == old(self).ledger_floors(),
            raised == match spec_base_at(old(self).receiver_bases(), flow.0 as usize) {
                Some(base) => umax(base, spec_floor_at(old(self).receiver_floors(), base))
                    == capacity,
                None => false,
            },
            raised ==> final(self).receiver_floors() == spec_raise(
                old(self).receiver_floors(),
                spec_base_at(old(self).receiver_bases(), flow.0 as usize)->Some_0,
                grown,
            ),
            !raised ==> final(self).receiver_floors() == old(self).receiver_floors(),
    {
        let slot = flow.0 as usize;
        let base = if slot < self.receiver_base_by_flow.len() {
            match self.receiver_base_by_flow[slot] {
                None => return false,
                Some(base) => base,
            }
        } else {
            return false;
        };
        if max_usize(base, self.receiver_ranges.floor(base)) != capacity {
            return false;
        }
        proof {
            lemma_raise(self.receiver_ranges.entries_seq(), base, grown);
        }
        self.receiver_ranges.raise(base, grown);
        true
    }

    fn raise_ledger_floor(&mut self, flow: usize, grown: usize)
        requires
            flow < usize::MAX,
        ensures
            final(self).receiver_bases() == old(self).receiver_bases(),
            final(self).ledger_bases() == old(self).ledger_bases(),
            final(self).receiver_floors() == old(self).receiver_floors(),
            final(self).ledger_floors().len() == if flow < old(self).ledger_floors().len() {
                old(self).ledger_floors().len()
            } else {
                (flow + 1) as nat
            },
            forall|f: usize|
                #![trigger spec_ledger_floor_at(final(self).ledger_floors(), f)]
                spec_ledger_floor_at(final(self).ledger_floors(), f) == if f == flow {
                    umax(spec_ledger_floor_at(old(self).ledger_floors(), flow), grown)
                } else {
                    spec_ledger_floor_at(old(self).ledger_floors(), f)
                },
    {
        let ghost initial = self.ledger_segments_by_flow@;
        while self.ledger_segments_by_flow.len() <= flow
            invariant
                flow < usize::MAX,
                initial.len() <= self.ledger_segments_by_flow@.len(),
                self.ledger_segments_by_flow@.len() > initial.len()
                    ==> self.ledger_segments_by_flow@.len() <= flow + 1,
                self.receiver_bases() == old(self).receiver_bases(),
                self.ledger_bases() == old(self).ledger_bases(),
                self.receiver_floors() == old(self).receiver_floors(),
                initial == old(self).ledger_floors(),
                forall|i: int| 0 <= i < initial.len() ==> self.ledger_segments_by_flow@[i] == initial[i],
                forall|i: int|
                    initial.len() <= i < self.ledger_segments_by_flow@.len()
                        ==> self.ledger_segments_by_flow@[i] == 0,
            decreases flow + 1 - self.ledger_segments_by_flow@.len(),
        {
            self.ledger_segments_by_flow.push(0);
        }
        let raised = max_usize(self.ledger_segments_by_flow[flow], grown);
        self.ledger_segments_by_flow.set(flow, raised);
    }

    /// Raises one flow's ledger floor after its own row overflowed. Equivalent flows keep their
    /// floors; a flow with no base or a stale capacity is refused with `false`.
    pub fn raise_ledger(&mut self, flow: FlowId, capacity: usize, grown: usize) -> (raised: bool)
        requires
            old(self).wf(),
        ensures
            final(self).wf(),
            final(self).receiver_bases() == old(self).receiver_bases(),
            final(self).ledger_bases() == old(self).ledger_bases(),
            final(self).receiver_floors() == old(self).receiver_floors(),
            raised == match spec_base_at(old(self).ledger_bases(), flow.0 as usize) {
                Some(base) => umax(base, spec_ledger_floor_at(old(self).ledger_floors(), flow.0 as usize))
                    == capacity,
                None => false,
            },
            forall|f: usize|
                #![trigger spec_ledger_floor_at(final(self).ledger_floors(), f)]
                spec_ledger_floor_at(final(self).ledger_floors(), f) == if raised && f == flow.0 as usize {
                    umax(spec_ledger_floor_at(old(self).ledger_floors(), f), grown)
                } else {
                    spec_ledger_floor_at(old(self).ledger_floors(), f)
                },
            !raised ==> final(self).ledger_floors() == old(self).ledger_floors(),
    {
        let slot = flow.0 as usize;
        let base = if slot < self.ledger_base_by_flow.len() {
            match self.ledger_base_by_flow[slot] {
                None => return false,
                Some(base) => base,
            }
        } else {
            return false;
        };
        if max_usize(base, self.ledger_floor(flow)) != capacity {
            return false;
        }
        assert(slot < self.ledger_base_by_flow@.len());
        self.raise_ledger_floor(slot, grown);
        true
    }

    /// Sizes every planned flow from one fault's per-flow occupancy high-water vector, and
    /// returns how many floors moved. A flow with no recorded base is never raised, and floors
    /// only ever rise.
    pub fn raise_ledger_from_occupancy(&mut self, high_water: &[u32]) -> (raised: usize)
        requires
            old(self).wf(),
        ensures
            final(self).wf(),
            final(self).receiver_bases() == old(self).receiver_bases(),
            final(self).ledger_bases() == old(self).ledger_bases(),
            final(self).receiver_floors() == old(self).receiver_floors(),
            raised == spec_occupancy_raises(
                old(self).ledger_bases(),
                old(self).ledger_floors(),
                high_water@,
                old(self).ledger_bases().len() as int,
            ),
            forall|f: usize|
                #![trigger spec_ledger_floor_at(final(self).ledger_floors(), f)]
                spec_ledger_floor_at(final(self).ledger_floors(), f) == if f < old(self).ledger_bases().len()
                    && old(self).ledger_bases()[f as int] is Some {
                    umax(
                        spec_ledger_floor_at(old(self).ledger_floors(), f),
                        spec_ledger_capacity_from_high_water(spec_high_water_at(high_water@, f)),
                    )
                } else {
                    spec_ledger_floor_at(old(self).ledger_floors(), f)
                },
    {
        let ghost old_floors = self.ledger_segments_by_flow@;
        let mut raised: usize = 0;
        let mut flow: usize = 0;
        while flow < self.ledger_base_by_flow.len()
            invariant
                flow <= self.ledger_base_by_flow@.len(),
                self.wf(),
                self.receiver_bases() == old(self).receiver_bases(),
                self.ledger_bases() == old(self).ledger_bases(),
                self.receiver_floors() == old(self).receiver_floors(),
                old_floors == old(self).ledger_floors(),
                raised <= flow,
                raised == spec_occupancy_raises(
                    self.ledger_bases(),
                    old_floors,
                    high_water@,
                    flow as int,
                ),
                forall|f: usize|
                    #![trigger spec_ledger_floor_at(self.ledger_floors(), f)]
                    spec_ledger_floor_at(self.ledger_floors(), f) == if f < flow
                        && self.ledger_bases()[f as int] is Some {
                        umax(
                            spec_ledger_floor_at(old_floors, f),
                            spec_ledger_capacity_from_high_water(spec_high_water_at(high_water@, f)),
                        )
                    } else {
                        spec_ledger_floor_at(old_floors, f)
                    },
            decreases self.ledger_base_by_flow@.len() - flow,
        {
            if self.ledger_base_by_flow[flow].is_some() {
                let observed: usize = if flow < high_water.len() {
                    high_water[flow] as usize
                } else {
                    0
                };
                let target = ledger_capacity_from_high_water(observed);
                let current = self.ledger_floor(FlowId(flow as u64));
                assert(flow as u64 as usize == flow);
                if target > current {
                    self.raise_ledger_floor(flow, target);
                    raised = raised + 1;
                }
            }
            flow = flow + 1;
        }
        raised
    }
}

/// How many of the first `n` flows an occupancy vector raises: those with a recorded base whose
/// implied capacity exceeds their current floor.
pub open spec fn spec_occupancy_raises(
    bases: Seq<Option<usize>>,
    floors: Seq<usize>,
    high_water: Seq<u32>,
    n: int,
) -> int
    decreases n,
{
    if n <= 0 {
        0
    } else {
        spec_occupancy_raises(bases, floors, high_water, n - 1) + if bases[n - 1] is Some
            && spec_ledger_capacity_from_high_water(spec_high_water_at(high_water, (n - 1) as usize))
            > spec_ledger_floor_at(floors, (n - 1) as usize) {
            1int
        } else {
            0int
        }
    }
}

proof fn lemma_lookup_append(prefix: Seq<(usize, usize)>, last: (usize, usize), key: usize)
    requires
        forall|i: int| 0 <= i < prefix.len() ==> prefix[i].0 != last.0,
    ensures
        spec_lookup(prefix.push(last), key) == if key == last.0 {
            Some(last.1)
        } else {
            spec_lookup(prefix, key)
        },
    decreases prefix.len(),
{
    let pushed = prefix.push(last);
    if prefix.len() == 0 {
        assert(pushed.drop_first().len() == 0);
        assert(spec_lookup(pushed.drop_first(), key) is None);
        assert(pushed[0] == last);
    } else {
        assert(pushed[0] == prefix[0]);
        assert(pushed.drop_first() =~= prefix.drop_first().push(last));
        assert forall|i: int| 0 <= i < prefix.drop_first().len() implies prefix.drop_first()[i].0
            != last.0 by {
            assert(prefix.drop_first()[i] == prefix[i + 1]);
        }
        lemma_lookup_append(prefix.drop_first(), last, key);
    }
}

proof fn lemma_raise_past_end(s: Seq<(usize, usize)>, key: usize, capacity: usize)
    requires
        forall|i: int| 0 <= i < s.len() ==> s[i].0 < key,
    ensures
        spec_raise(s, key, capacity) == s.push((key, capacity)),
    decreases s.len(),
{
    if s.len() > 0 {
        assert forall|i: int| 0 <= i < s.drop_first().len() implies s.drop_first()[i].0 < key by {
            assert(s.drop_first()[i] == s[i + 1]);
        }
        lemma_raise_past_end(s.drop_first(), key, capacity);
        assert(seq![s[0]] + s.drop_first().push((key, capacity)) =~= s.push((key, capacity)));
    } else {
        assert(seq![(key, capacity)] =~= s.push((key, capacity)));
    }
}

/// Max-merging a list that is already canonical gives it back unchanged.
proof fn lemma_merge_all_canonical(s: Seq<(usize, usize)>)
    requires
        keys_ascend(s),
    ensures
        spec_merge_all(s) == s,
    decreases s.len(),
{
    if s.len() > 0 {
        let prefix = s.drop_last();
        lemma_merge_all_canonical(prefix);
        assert forall|i: int| 0 <= i < prefix.len() implies prefix[i].0 < s.last().0 by {
            assert(prefix[i] == s[i]);
        }
        lemma_raise_past_end(prefix, s.last().0, s.last().1);
        assert(prefix.push(s.last()) =~= s);
    }
}

/// The nonzero floors among the first `n` flows form a canonical list that records exactly those
/// floors.
proof fn lemma_nonzero_floors(floors: Seq<usize>, n: int)
    requires
        0 <= n <= floors.len(),
        floors.len() <= usize::MAX,
    ensures
        keys_ascend(spec_nonzero_floors(floors, n)),
        forall|i: int| 0 <= i < spec_nonzero_floors(floors, n).len() ==> #[trigger] spec_nonzero_floors(floors, n)[i].0 < n,
        forall|i: int| 0 <= i < spec_nonzero_floors(floors, n).len() ==> #[trigger] spec_nonzero_floors(floors, n)[i].1 != 0,
        forall|flow: usize|
            #![trigger spec_lookup(spec_nonzero_floors(floors, n), flow)]
            spec_floor_at(spec_nonzero_floors(floors, n), flow) == if flow < n {
                floors[flow as int]
            } else {
                0
            },
    decreases n,
{
    if n > 0 {
        let prefix = spec_nonzero_floors(floors, n - 1);
        lemma_nonzero_floors(floors, n - 1);
        if floors[n - 1] != 0 {
            let last = ((n - 1) as usize, floors[n - 1]);
            assert forall|i: int| 0 <= i < prefix.len() implies prefix[i].0 != last.0 by {
                assert(prefix[i].0 < n - 1);
            }
            assert forall|i: int, j: int| 0 <= i < j < prefix.push(last).len() implies prefix.push(last)[i].0
                < prefix.push(last)[j].0 by {
                if j == prefix.len() {
                    assert(prefix[i].0 < n - 1);
                }
            }
            assert forall|flow: usize| #[trigger] spec_lookup(prefix.push(last), flow) == if flow == last.0 {
                Some(last.1)
            } else {
                spec_lookup(prefix, flow)
            } by {
                lemma_lookup_append(prefix, last, flow);
            }
        }
    }
}

/// The entries of a canonical list with a key below `flows` and a nonzero capacity, in order.
pub open spec fn spec_kept_segments(segments: Seq<(usize, usize)>, flows: usize) -> Seq<(usize, usize)>
    decreases segments.len(),
{
    if segments.len() == 0 {
        Seq::empty()
    } else {
        let rest = spec_kept_segments(segments.drop_last(), flows);
        let last = segments.last();
        if last.0 < flows && last.1 != 0 {
            rest.push(last)
        } else {
            rest
        }
    }
}

proof fn lemma_kept_segments(segments: Seq<(usize, usize)>, flows: usize)
    requires
        keys_ascend(segments),
    ensures
        keys_ascend(spec_kept_segments(segments, flows)),
        forall|i: int|
            0 <= i < spec_kept_segments(segments, flows).len() ==> exists|j: int|
                0 <= j < segments.len() && segments[j] == #[trigger] spec_kept_segments(segments, flows)[i],
        forall|key: usize|
            #![trigger spec_lookup(spec_kept_segments(segments, flows), key)]
            spec_lookup(spec_kept_segments(segments, flows), key) == match spec_lookup(segments, key) {
                Some(capacity) => if key < flows && capacity != 0 {
                    Some(capacity)
                } else {
                    None
                },
                None => None,
            },
    decreases segments.len(),
{
    if segments.len() > 0 {
        let prefix = segments.drop_last();
        let last = segments.last();
        assert forall|i: int, j: int| 0 <= i < j < prefix.len() implies prefix[i].0 < prefix[j].0 by {
            assert(prefix[i] == segments[i] && prefix[j] == segments[j]);
        }
        lemma_kept_segments(prefix, flows);
        let kept = spec_kept_segments(prefix, flows);
        assert forall|i: int| 0 <= i < prefix.len() implies prefix[i].0 != last.0 by {
            assert(prefix[i] == segments[i]);
            assert(segments[segments.len() - 1] == last);
        }
        assert forall|i: int| 0 <= i < kept.len() implies kept[i].0 < last.0 by {
            let j = choose|j: int| 0 <= j < prefix.len() && prefix[j] == #[trigger] kept[i];
            assert(prefix[j] == segments[j]);
            assert(segments[segments.len() - 1] == last);
        }
        assert(prefix.push(last) =~= segments);
        assert forall|key: usize| #[trigger] spec_lookup(segments, key) == if key == last.0 {
            Some(last.1)
        } else {
            spec_lookup(prefix, key)
        } by {
            lemma_lookup_append(prefix, last, key);
        }
        if last.0 < flows && last.1 != 0 {
            let out = kept.push(last);
            assert forall|key: usize| #[trigger] spec_lookup(out, key) == if key == last.0 {
                Some(last.1)
            } else {
                spec_lookup(kept, key)
            } by {
                lemma_lookup_append(kept, last, key);
            }
            assert forall|i: int, j: int| 0 <= i < j < out.len() implies out[i].0 < out[j].0 by {
                if j == kept.len() {
                    assert(out[i] == kept[i]);
                } else {
                    assert(out[i] == kept[i] && out[j] == kept[j]);
                }
            }
            assert forall|i: int| 0 <= i < out.len() implies exists|j: int|
                0 <= j < segments.len() && segments[j] == #[trigger] out[i] by {
                if i == kept.len() {
                    assert(segments[segments.len() - 1] == out[i]);
                } else {
                    let j = choose|j: int| 0 <= j < prefix.len() && prefix[j] == #[trigger] kept[i];
                    assert(segments[j] == out[i]);
                }
            }
        } else {
            assert forall|i: int| 0 <= i < kept.len() implies exists|j: int|
                0 <= j < segments.len() && segments[j] == #[trigger] kept[i] by {
                let j = choose|j: int| 0 <= j < prefix.len() && prefix[j] == #[trigger] kept[i];
                assert(segments[j] == kept[i]);
            }
            assert forall|key: usize| key == last.0 implies #[trigger] spec_lookup(kept, key) is None by {
                if spec_lookup(kept, key) is Some {
                    lemma_lookup_some(kept, key);
                }
            }
        }
    }
}

/// Two canonical lists that record the same capacity for every key are the same list.
proof fn lemma_canonical_lists_equal(a: Seq<(usize, usize)>, b: Seq<(usize, usize)>)
    requires
        keys_ascend(a),
        keys_ascend(b),
        forall|key: usize| #[trigger] spec_lookup(a, key) == spec_lookup(b, key),
    ensures
        a == b,
    decreases a.len() + b.len(),
{
    if a.len() == 0 || b.len() == 0 {
        if a.len() > 0 {
            lemma_lookup_member(a, 0);
            assert(spec_lookup(b, a[0].0) == spec_lookup(a, a[0].0));
        } else if b.len() > 0 {
            lemma_lookup_member(b, 0);
            assert(spec_lookup(a, b[0].0) == spec_lookup(b, b[0].0));
        }
        assert(a =~= b);
    } else {
        lemma_lookup_member(a, 0);
        lemma_lookup_member(b, 0);
        assert(spec_lookup(b, a[0].0) == spec_lookup(a, a[0].0));
        assert(spec_lookup(a, b[0].0) == spec_lookup(b, b[0].0));
        if a[0].0 < b[0].0 {
            lemma_lookup_absent_below(b, a[0].0);
        } else if b[0].0 < a[0].0 {
            lemma_lookup_absent_below(a, b[0].0);
        }
        assert(a[0] == b[0]);
        let ta = a.drop_first();
        let tb = b.drop_first();
        assert forall|i: int, j: int| 0 <= i < j < ta.len() implies ta[i].0 < ta[j].0 by {
            assert(ta[i] == a[i + 1] && ta[j] == a[j + 1]);
        }
        assert forall|i: int, j: int| 0 <= i < j < tb.len() implies tb[i].0 < tb[j].0 by {
            assert(tb[i] == b[i + 1] && tb[j] == b[j + 1]);
        }
        assert forall|key: usize| #[trigger] spec_lookup(ta, key) == spec_lookup(tb, key) by {
            assert(spec_lookup(a, key) == spec_lookup(b, key));
            if key == a[0].0 {
                if ta.len() > 0 {
                    assert(ta[0] == a[1]);
                    lemma_lookup_absent_below(ta, key);
                }
                if tb.len() > 0 {
                    assert(tb[0] == b[1]);
                    lemma_lookup_absent_below(tb, key);
                }
            }
        }
        lemma_canonical_lists_equal(ta, tb);
        assert(a =~= seq![a[0]] + ta);
        assert(b =~= seq![b[0]] + tb);
    }
}

/// The nonzero floors of a ledger vector whose floors below `flows` are those a canonical list
/// records, and zero from `flows` on, are the kept entries of that list.
proof fn lemma_nonzero_floors_kept(ledger: Seq<usize>, segments: Seq<(usize, usize)>, flows: usize)
    requires
        ledger.len() <= usize::MAX,
        keys_ascend(segments),
        forall|flow: usize|
            #![trigger spec_ledger_floor_at(ledger, flow)]
            spec_ledger_floor_at(ledger, flow) == if flow < flows {
                spec_floor_at(segments, flow)
            } else {
                0
            },
    ensures
        spec_nonzero_floors(ledger, ledger.len() as int) == spec_kept_segments(segments, flows),
{
    let n = ledger.len() as int;
    let converged = spec_nonzero_floors(ledger, n);
    lemma_nonzero_floors(ledger, n);
    lemma_kept_segments(segments, flows);
    assert forall|key: usize| #[trigger] spec_lookup(converged, key) == spec_lookup(
        spec_kept_segments(segments, flows),
        key,
    ) by {
        assert(spec_ledger_floor_at(ledger, key) == if key < flows {
            spec_floor_at(segments, key)
        } else {
            0
        });
        if spec_lookup(converged, key) is Some {
            lemma_lookup_some(converged, key);
        }
        if key < n && ledger[key as int] != 0 {
            if spec_lookup(converged, key) is None {
                assert(spec_floor_at(converged, key) == 0);
            }
        }
    }
    lemma_canonical_lists_equal(converged, spec_kept_segments(segments, flows));
}

/// Warm-starting from a run's converged ledger segments, on an image that plans every flow they
/// name, gives exactly those segments back.
pub proof fn law_ledger_warm_start_round_trip(ledger: Seq<usize>, flows: usize)
    requires
        ledger.len() <= flows,
    ensures
        spec_kept_segments(
            spec_merge_all(spec_nonzero_floors(ledger, ledger.len() as int)),
            flows,
        ) == spec_nonzero_floors(ledger, ledger.len() as int),
{
    let converged = spec_nonzero_floors(ledger, ledger.len() as int);
    lemma_nonzero_floors(ledger, ledger.len() as int);
    lemma_merge_all_canonical(converged);
    lemma_kept_segments(converged, flows);
    assert forall|key: usize| #[trigger] spec_lookup(spec_kept_segments(converged, flows), key)
        == spec_lookup(converged, key) by {
        if spec_lookup(converged, key) is Some {
            lemma_lookup_some(converged, key);
        }
    }
    lemma_canonical_lists_equal(spec_kept_segments(converged, flows), converged);
}

/// Warm-starting from a run's converged snapshot reproduces every floor the run ended on: a
/// canonical class or stream list merges back to itself, and every flow's ledger floor is read
/// back from the nonzero-floor list unchanged, so each entity is planned at `max(base, floor)`
/// exactly as the chain's last attempt planned it.
pub proof fn law_converged_snapshot_replays_floors(floors: Seq<(usize, usize)>, ledger: Seq<usize>, flow: usize)
    requires
        keys_ascend(floors),
        ledger.len() <= usize::MAX,
    ensures
        spec_merge_all(floors) == floors,
        spec_floor_at(spec_merge_all(spec_nonzero_floors(ledger, ledger.len() as int)), flow)
            == spec_ledger_floor_at(ledger, flow),
{
    lemma_merge_all_canonical(floors);
    lemma_nonzero_floors(ledger, ledger.len() as int);
    lemma_merge_all_canonical(spec_nonzero_floors(ledger, ledger.len() as int));
    assert(spec_lookup(spec_nonzero_floors(ledger, ledger.len() as int), flow) == spec_lookup(
        spec_nonzero_floors(ledger, ledger.len() as int),
        flow,
    ));
}

/// One failed attempt and the capacity selected for its deterministic replacement attempt.
#[derive(Clone, Copy, Debug, PartialEq, Eq)]
pub struct CapacityRetryRecord<A> {
    /// One-based replacement-attempt number.
    pub retry: usize,
    pub arena: A,
    /// LP identity for per-LP and aggregate arenas.
    pub node: Option<NodeId>,
    /// Flow identity for per-flow TCP arenas.
    pub flow: Option<FlowId>,
    /// Immutable `SimulationImage::channels` index for a channel-inbox stream.
    pub stream: Option<usize>,
    pub capacity: usize,
    pub demand: usize,
    pub grown_capacity: usize,
}

} // verus!
