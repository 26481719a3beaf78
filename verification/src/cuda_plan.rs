//! Host-side construction of the CUDA plan: observation-log capacities, inbound producer lists,
//! the transition and round limits of one run, and the host-built fallback-event heaps.

use vstd::prelude::*;

use crate::device_capacity::sat;
use crate::device_sizing::{
    collect_hop_pairs, flow_references_valid, hop_pairs, hop_target, image_generators,
    inbound_producers, inbound_total, rate_budgets_defined, route_of, topology_valid,
};
use crate::image::{FlowGeneratorKind, FlowGeneratorState, SimulationImage};
use crate::rate_work::{rate_device_work, spec_rate_device_work};
use crate::cpu::heap_parent;
use crate::cuda::{record_less, spec_record_less};
use crate::aqm_trace::push_text;
use crate::event::{push_key, push_payload, spec_key_text, spec_payload_text};

verus! {

/// Words of one LP's inbound-producer header: list offset and producer count.
pub const INBOUND_META_WORDS: usize = 2;

// ---------------------------------------------------------------------------------------------
// Observation capacities.

/// Observation capacities after the first `hops` hops of one direction of a flow: each hop's
/// transmitter logs a departure and an arrival per packet, its receiver an arrival.
pub open spec fn route_observations(
    image: SimulationImage,
    flow: int,
    data: bool,
    packet_count: usize,
    hops: nat,
    capacities: Seq<usize>,
) -> Seq<usize>
    decreases hops,
{
    if hops == 0 {
        capacities
    } else {
        let capacities = route_observations(
            image,
            flow,
            data,
            packet_count,
            (hops - 1) as nat,
            capacities,
        );
        let hop = hops - 1;
        let link = route_of(image, flow, data)[hop];
        let producer = image.links[link.0 as int].source.0 as int;
        let capacities = capacities.update(
            producer,
            capacities[producer].saturating_add(sat(packet_count * 2)),
        );
        let target = hop_target(image, flow, data, hop).0 as int;
        capacities.update(target, capacities[target].saturating_add(packet_count))
    }
}

pub open spec fn initial_observations(image: SimulationImage, events: nat) -> Seq<usize>
    decreases events,
{
    if events == 0 {
        Seq::new(image.nodes.len() as nat, |i: int| 1usize)
    } else {
        let capacities = initial_observations(image, (events - 1) as nat);
        let target = image.initial_events[events - 1].target.0 as int;
        capacities.update(target, capacities[target].saturating_add(1))
    }
}

/// Observation capacities after the first `flows` flows: data packets are sourced at the flow's
/// source, feedback packets at its target, and every hop adds its logs.
pub open spec fn observations_upto(
    image: SimulationImage,
    counts: Seq<usize>,
    feedback_counts: Seq<usize>,
    flows: nat,
) -> Seq<usize>
    decreases flows,
{
    if flows == 0 {
        initial_observations(image, image.initial_events.len() as nat)
    } else {
        let flow = flows - 1;
        let capacities = observations_upto(image, counts, feedback_counts, (flows - 1) as nat);
        let feedback = feedback_counts[flow];
        let data = counts[flow].saturating_sub(feedback);
        let source = image.flows[flow].source.0 as int;
        let target = image.flows[flow].target.0 as int;
        let capacities = capacities.update(source, capacities[source].saturating_add(data));
        let capacities = capacities.update(target, capacities[target].saturating_add(feedback));
        let capacities = route_observations(
            image,
            flow,
            true,
            data,
            route_of(image, flow, true).len(),
            capacities,
        );
        route_observations(
            image,
            flow,
            false,
            feedback,
            route_of(image, flow, false).len(),
            capacities,
        )
    }
}

pub open spec fn spec_observation_capacities(
    image: SimulationImage,
    counts: Seq<usize>,
    feedback_counts: Seq<usize>,
) -> Seq<usize> {
    observations_upto(image, counts, feedback_counts, image.flows.len() as nat)
}

fn saturating_double(value: usize) -> (doubled: usize)
    ensures
        doubled == sat(value * 2),
{
    match value.checked_mul(2) {
        Some(doubled) => doubled,
        None => usize::MAX,
    }
}

/// Adds one direction of a flow to the per-LP observation capacities.
fn add_route_observation_capacities(
    image: &SimulationImage,
    flow: usize,
    data: bool,
    packet_count: usize,
    capacities: &mut Vec<usize>,
)
    requires
        flow < image.flows.len(),
        flow_references_valid(*image),
        topology_valid(*image),
        old(capacities).len() == image.nodes.len(),
    ensures
        final(capacities)@ == route_observations(
            *image,
            flow as int,
            data,
            packet_count,
            route_of(*image, flow as int, data).len(),
            old(capacities)@,
        ),
        final(capacities).len() == image.nodes.len(),
{
    let route = if data {
        &image.flows[flow].route
    } else {
        &image.flows[flow].reverse_route
    };
    assert(route@ == route_of(*image, flow as int, data));
    let ghost initial = capacities@;
    let mut hop: usize = 0;
    while hop < route.len()
        invariant
            flow < image.flows.len(),
            flow_references_valid(*image),
            topology_valid(*image),
            route@ == route_of(*image, flow as int, data),
            hop <= route.len(),
            capacities.len() == image.nodes.len(),
            capacities@ == route_observations(
                *image,
                flow as int,
                data,
                packet_count,
                hop as nat,
                initial,
            ),
        decreases route.len() - hop,
    {
        proof {
            crate::device_sizing::lemma_hop_target_valid(*image, flow as int, data, hop as int);
        }
        let producer = image.links[route[hop].0 as usize].source.0 as usize;
        let raised = capacities[producer].saturating_add(saturating_double(packet_count));
        capacities.set(producer, raised);
        let target = if hop + 1 < route.len() {
            image.links[route[hop + 1].0 as usize].source
        } else if data {
            image.flows[flow].target
        } else {
            image.flows[flow].source
        };
        assert(target == hop_target(*image, flow as int, data, hop as int));
        let slot = target.0 as usize;
        let raised = capacities[slot].saturating_add(packet_count);
        capacities.set(slot, raised);
        hop += 1;
    }
}

/// Per-LP observation-log capacities of the plan.
pub fn derived_observation_capacities(
    image: &SimulationImage,
    counts: &Vec<usize>,
    feedback_counts: &Vec<usize>,
) -> (capacities: Vec<usize>)
    requires
        flow_references_valid(*image),
        topology_valid(*image),
        counts.len() == image.flows.len(),
        feedback_counts.len() == image.flows.len(),
    ensures
        capacities@ == spec_observation_capacities(*image, counts@, feedback_counts@),
{
    let mut capacities: Vec<usize> = Vec::new();
    while capacities.len() < image.nodes.len()
        invariant
            capacities.len() <= image.nodes.len(),
            forall|i: int| 0 <= i < capacities.len() ==> capacities[i] == 1,
        decreases image.nodes.len() - capacities.len(),
    {
        capacities.push(1);
    }
    assert(capacities@ == initial_observations(*image, 0));
    let mut index: usize = 0;
    while index < image.initial_events.len()
        invariant
            topology_valid(*image),
            index <= image.initial_events.len(),
            capacities.len() == image.nodes.len(),
            capacities@ == initial_observations(*image, index as nat),
        decreases image.initial_events.len() - index,
    {
        let slot = image.initial_events[index].target.0 as usize;
        let raised = capacities[slot].saturating_add(1);
        capacities.set(slot, raised);
        index += 1;
    }
    let mut flow: usize = 0;
    while flow < image.flows.len()
        invariant
            flow_references_valid(*image),
            topology_valid(*image),
            counts.len() == image.flows.len(),
            feedback_counts.len() == image.flows.len(),
            flow <= image.flows.len(),
            capacities.len() == image.nodes.len(),
            capacities@ == observations_upto(*image, counts@, feedback_counts@, flow as nat),
        decreases image.flows.len() - flow,
    {
        let feedback = feedback_counts[flow];
        let data = counts[flow].saturating_sub(feedback);
        let source = image.flows[flow].source.0 as usize;
        let target = image.flows[flow].target.0 as usize;
        let raised = capacities[source].saturating_add(data);
        capacities.set(source, raised);
        let raised = capacities[target].saturating_add(feedback);
        capacities.set(target, raised);
        add_route_observation_capacities(image, flow, true, data, &mut capacities);
        add_route_observation_capacities(image, flow, false, feedback, &mut capacities);
        flow += 1;
    }
    capacities
}

// ---------------------------------------------------------------------------------------------
// Inbound producer lists.

pub open spec fn strictly_ascending(values: Seq<u64>) -> bool {
    forall|first: int, second: int|
        0 <= first < second < values.len() ==> #[trigger] values[first] < #[trigger] values[second]
}

/// Inserts `value` into a strictly ascending list unless it is already there.
fn insert_sorted(values: &mut Vec<u64>, value: u64)
    requires
        strictly_ascending(old(values)@),
    ensures
        strictly_ascending(final(values)@),
        final(values)@.to_set() == old(values)@.to_set().insert(value),
        final(values)@.len() <= old(values)@.len() + 1,
{
    let mut position: usize = 0;
    while position < values.len() && values[position] < value
        invariant
            position <= values@.len(),
            forall|i: int| 0 <= i < position ==> #[trigger] values@[i] < value,
        decreases values@.len() - position,
    {
        position += 1;
    }
    if position < values.len() && values[position] == value {
        assert(values@.to_set() =~= values@.to_set().insert(value)) by {
            assert(values@.contains(value)) by {
                assert(values@[position as int] == value);
            }
        }
        return;
    }
    let ghost before = values@;
    values.insert(position, value);
    proof {
        assert(values@ == before.insert(position as int, value));
        assert forall|first: int, second: int|
            0 <= first < second < values@.len() implies #[trigger] values@[first]
                < #[trigger] values@[second] by {
            if second < position {
                assert(values@[first] == before[first] && values@[second] == before[second]);
            } else if second == position {
                assert(values@[first] == before[first]);
            } else if first < position {
                assert(values@[first] == before[first]);
                assert(values@[second] == before[second - 1]);
                assert(before[position as int] > value);
                assert(before[position as int] <= before[second - 1]);
            } else if first == position {
                assert(values@[second] == before[second - 1]);
                assert(before[position as int] > value);
                assert(before[position as int] <= before[second - 1]);
            } else {
                assert(values@[first] == before[first - 1]);
                assert(values@[second] == before[second - 1]);
            }
        }
        assert(values@.to_set() =~= before.to_set().insert(value)) by {
            assert forall|x: u64| values@.to_set().contains(x) <==> before.to_set().insert(
                value,
            ).contains(x) by {
                if values@.contains(x) {
                    let k = choose|k: int| 0 <= k < values@.len() && values@[k] == x;
                    if k < position {
                        assert(before[k] == x);
                    } else if k > position {
                        assert(before[k - 1] == x);
                    }
                }
                if before.contains(x) {
                    let k = choose|k: int| 0 <= k < before.len() && before[k] == x;
                    if k < position {
                        assert(values@[k] == x);
                    } else {
                        assert(values@[k + 1] == x);
                    }
                }
                if x == value {
                    assert(values@[position as int] == x);
                }
            }
        }
    }
}

proof fn lemma_ascending_no_duplicates(values: Seq<u64>)
    requires
        strictly_ascending(values),
    ensures
        values.no_duplicates(),
{
    assert forall|i: int, j: int| 0 <= i < values.len() && 0 <= j < values.len() && i != j implies values[i]
        != values[j] by {
        if i < j {
            assert(values[i] < values[j]);
        } else {
            assert(values[j] < values[i]);
        }
    }
}

/// Ascending distinct producers delivering into `target`.
fn sorted_inbound_producers(pairs: &Vec<(u64, u64)>, target: u64, image: &SimulationImage) -> (producers:
    Vec<u64>)
    requires
        pairs@ == hop_pairs(*image, image.flows.len() as nat),
    ensures
        strictly_ascending(producers@),
        producers@.to_set() == inbound_producers(*image, target),
        producers@.len() == inbound_producers(*image, target).len(),
{
    let mut producers: Vec<u64> = Vec::new();
    let mut index: usize = 0;
    while index < pairs.len()
        invariant
            index <= pairs.len(),
            strictly_ascending(producers@),
            forall|producer: u64|
                producers@.to_set().contains(producer) <==> exists|earlier: int|
                    0 <= earlier < index && #[trigger] pairs@[earlier] == (producer, target),
        decreases pairs.len() - index,
    {
        let (producer, to) = pairs[index];
        let ghost before = producers@;
        if to == target {
            insert_sorted(&mut producers, producer);
        }
        proof {
            assert forall|p: u64| producers@.to_set().contains(p) <==> exists|earlier: int|
                0 <= earlier < index + 1 && #[trigger] pairs@[earlier] == (p, target) by {
                assert(before.to_set().contains(p) <==> exists|earlier: int|
                    0 <= earlier < index && #[trigger] pairs@[earlier] == (p, target));
                if exists|earlier: int|
                    0 <= earlier < index + 1 && #[trigger] pairs@[earlier] == (p, target) {
                    let earlier = choose|earlier: int|
                        0 <= earlier < index + 1 && #[trigger] pairs@[earlier] == (p, target);
                    if earlier == index as int {
                        assert(to == target && producer == p);
                    }
                }
                if before.to_set().contains(p) {
                    let earlier = choose|earlier: int|
                        0 <= earlier < index && #[trigger] pairs@[earlier] == (p, target);
                    assert(0 <= earlier < index + 1 && pairs@[earlier] == (p, target));
                }
                if to == target && p == producer {
                    assert(pairs@[index as int] == (p, target));
                }
            }
        }
        index += 1;
    }
    proof {
        assert(producers@.to_set() =~= inbound_producers(*image, target)) by {
            assert forall|p: u64| producers@.to_set().contains(p) <==> inbound_producers(
                *image,
                target,
            ).contains(p) by {
                if inbound_producers(*image, target).contains(p) {
                    let earlier = choose|earlier: int|
                        0 <= earlier < hop_pairs(*image, image.flows.len() as nat).len()
                            && #[trigger] hop_pairs(*image, image.flows.len() as nat)[earlier] == (
                        p,
                        target,
                    );
                    assert(pairs@[earlier] == (p, target));
                }
            }
        }
        lemma_ascending_no_duplicates(producers@);
        producers@.unique_seq_to_set();
    }
    producers
}

/// The headers and lists of the first `count` LPs are in place.
pub open spec fn inbound_lists_ok(
    image: SimulationImage,
    meta: Seq<u64>,
    producers: Seq<u64>,
    count: int,
) -> bool {
    forall|target: int|
        0 <= target < count ==> {
            let start = inbound_total(image, target as nat) as int;
            let end = inbound_total(image, (target + 1) as nat) as int;
            &&& #[trigger] meta[target * 2] == start
            &&& meta[target * 2 + 1] == inbound_producers(image, target as u64).len()
            &&& strictly_ascending(producers.subrange(start, end))
            &&& producers.subrange(start, end).to_set() == inbound_producers(image, target as u64)
        }
}

/// Inbound producer headers and lists: for each LP, the offset of its list and its length, and
/// the lists of every LP in LP order, each the ascending distinct producers delivering into it.
pub fn remote_inbound_producers(image: &SimulationImage) -> (lists: (Vec<u64>, Vec<u64>))
    requires
        flow_references_valid(*image),
        topology_valid(*image),
        image.nodes.len() * INBOUND_META_WORDS <= usize::MAX,
    ensures
        lists.0.len() == image.nodes.len() * INBOUND_META_WORDS,
        lists.1.len() == inbound_total(*image, image.nodes.len() as nat),
        inbound_lists_ok(*image, lists.0@, lists.1@, image.nodes.len() as int),
{
    let pairs = collect_hop_pairs(image);
    let mut meta: Vec<u64> = Vec::new();
    let mut producers: Vec<u64> = Vec::new();
    let mut target: usize = 0;
    while target < image.nodes.len()
        invariant
            pairs@ == hop_pairs(*image, image.flows.len() as nat),
            target <= image.nodes.len(),
            meta.len() == target * 2,
            producers.len() == inbound_total(*image, target as nat),
            inbound_lists_ok(*image, meta@, producers@, target as int),
        decreases image.nodes.len() - target,
    {
        let list = sorted_inbound_producers(&pairs, target as u64, image);
        let ghost before = producers@;
        let ghost old_meta = meta@;
        meta.push(producers.len() as u64);
        meta.push(list.len() as u64);
        let mut index: usize = 0;
        while index < list.len()
            invariant
                index <= list.len(),
                producers@ == before + list@.take(index as int),
            decreases list.len() - index,
        {
            producers.push(list[index]);
            assert(list@.take(index as int + 1) == list@.take(index as int).push(list@[index as int]));
            index += 1;
        }
        proof {
            assert(list@.take(index as int) == list@);
            assert(producers@.subrange(before.len() as int, producers@.len() as int) == list@);
            assert forall|earlier: int| 0 <= earlier < target + 1 implies {
                let start = inbound_total(*image, earlier as nat) as int;
                let end = inbound_total(*image, (earlier + 1) as nat) as int;
                &&& #[trigger] meta@[earlier * 2] == start
                &&& meta@[earlier * 2 + 1] == inbound_producers(*image, earlier as u64).len()
                &&& strictly_ascending(producers@.subrange(start, end))
                &&& producers@.subrange(start, end).to_set() == inbound_producers(
                    *image,
                    earlier as u64,
                )
            } by {
                if earlier < target {
                    assert(inbound_lists_ok(*image, old_meta, before, target as int));
                    assert(old_meta[earlier * 2] == inbound_total(*image, earlier as nat));
                }
                let start = inbound_total(*image, earlier as nat) as int;
                let end = inbound_total(*image, (earlier + 1) as nat) as int;
                if earlier < target {
                    lemma_inbound_total_monotone(*image, (earlier + 1) as nat, target as nat);
                    assert(producers@.subrange(start, end) == before.subrange(start, end));
                    assert(meta@[earlier * 2] == old_meta[earlier * 2]);
                    assert(meta@[earlier * 2 + 1] == old_meta[earlier * 2 + 1]);
                } else {
                    assert(earlier == target);
                    assert(start == before.len());
                    assert(end == start + list@.len());
                    assert(producers@.subrange(start, end) == list@);
                    assert(meta@[earlier * 2] == start);
                    assert(meta@[earlier * 2 + 1] == list@.len());
                }
            }
            assert(inbound_lists_ok(*image, meta@, producers@, target as int + 1));
        }
        target += 1;
    }
    (meta, producers)
}

proof fn lemma_inbound_total_monotone(image: SimulationImage, low: nat, high: nat)
    requires
        low <= high,
    ensures
        inbound_total(image, low) <= inbound_total(image, high),
    decreases high - low,
{
    if low < high {
        lemma_inbound_total_monotone(image, low, (high - 1) as nat);
    }
}

// ---------------------------------------------------------------------------------------------
// Transition and round limits.

/// Transitions one flow's packets can cause: each packet arrives, and on every hop of its longer
/// route it departs, completes and arrives again.
pub open spec fn flow_transition_term(image: SimulationImage, counts: Seq<usize>, flow: int) -> usize {
    let route = image.flows[flow].route.len();
    let reverse = image.flows[flow].reverse_route.len();
    let longest = if route >= reverse { route } else { reverse };
    sat(counts[flow] * sat(1 + sat(3 * longest)))
}

pub open spec fn network_transitions(image: SimulationImage, counts: Seq<usize>, flows: nat) -> nat
    decreases flows,
{
    if flows == 0 {
        0
    } else {
        network_transitions(image, counts, (flows - 1) as nat) + flow_transition_term(
            image,
            counts,
            flows - 1,
        ) as nat
    }
}

/// Pacing ticks of the rate generators among `generators`.
pub open spec fn pacing_transitions(image: SimulationImage, generators: Seq<FlowGeneratorState>) -> nat
    decreases generators.len(),
{
    if generators.len() == 0 {
        0
    } else {
        let generator = generators.last();
        pacing_transitions(image, generators.drop_last()) + match generator.kind {
            FlowGeneratorKind::Rate(rate) => spec_rate_device_work(
                image.stop_time_ns,
                generator,
                rate,
            ).pacing_ticks as nat,
            _ => 0nat,
        }
    }
}

/// Bound on the transitions of a run: the initial events plus one, every flow's packet
/// transitions and every rate generator's pacing ticks, saturating.
pub open spec fn spec_transition_bound(image: SimulationImage, counts: Seq<usize>) -> usize {
    sat(
        image.initial_events.len() + 1 + network_transitions(
            image,
            counts,
            image.flows.len() as nat,
        ) + pacing_transitions(image, image_generators(image)),
    )
}

fn saturating_mul_usize(left: usize, right: usize) -> (product: usize)
    ensures
        product == sat(left * right),
{
    match left.checked_mul(right) {
        Some(product) => product,
        None => usize::MAX,
    }
}

/// Bound on the transitions of a run.
pub fn derived_transition_bound(image: &SimulationImage, counts: &Vec<usize>) -> (bound: usize)
    requires
        flow_references_valid(*image),
        rate_budgets_defined(*image),
        counts.len() == image.flows.len(),
    ensures
        bound == spec_transition_bound(*image, counts@),
{
    let mut bound = image.initial_events.len().saturating_add(1);
    let ghost base: int = image.initial_events.len() + 1;
    let mut flow: usize = 0;
    while flow < image.flows.len()
        invariant
            counts.len() == image.flows.len(),
            flow <= image.flows.len(),
            base == image.initial_events.len() + 1,
            bound == sat(base + network_transitions(*image, counts@, flow as nat)),
        decreases image.flows.len() - flow,
    {
        let route = image.flows[flow].route.len();
        let reverse = image.flows[flow].reverse_route.len();
        let longest = if route >= reverse { route } else { reverse };
        let per_packet = 1usize.saturating_add(saturating_mul_usize(3, longest));
        let term = saturating_mul_usize(counts[flow], per_packet);
        assert(term == flow_transition_term(*image, counts@, flow as int));
        bound = bound.saturating_add(term);
        flow += 1;
    }
    let generators = crate::device_sizing::collect_generators(image);
    let ghost network = network_transitions(*image, counts@, image.flows.len() as nat);
    let mut index: usize = 0;
    while index < generators.len()
        invariant
            generators@ == image_generators(*image),
            rate_budgets_defined(*image),
            index <= generators.len(),
            bound == sat(base + network + pacing_transitions(*image, generators@.take(index as int))),
            base == image.initial_events.len() + 1,
            network == network_transitions(*image, counts@, image.flows.len() as nat),
        decreases generators.len() - index,
    {
        assert(generators@.take(index as int + 1).drop_last() == generators@.take(index as int));
        let generator = generators[index];
        assert(generator == image_generators(*image)[index as int]);
        if let FlowGeneratorKind::Rate(rate) = generator.kind {
            let work = rate_device_work(image, &generator, rate);
            bound = bound.saturating_add(work.pacing_ticks);
        }
        index += 1;
    }
    assert(generators@.take(index as int) == generators@);
    bound
}

/// Earliest initial event time.
pub open spec fn first_event_time(events: Seq<crate::event::Event>) -> Option<u64>
    decreases events.len(),
{
    if events.len() == 0 {
        None
    } else {
        let time = events.last().key.time_ns;
        match first_event_time(events.drop_last()) {
            None => Some(time),
            Some(rest) => Some(if rest <= time { rest } else { time }),
        }
    }
}

/// Bound on the synchronization rounds of a run: the lookahead windows between the first event
/// and the end of the run, plus two, never more than the transition bound plus two and never
/// fewer than one. A run with no events takes one round; one with no channels, two.
pub open spec fn spec_round_bound_of_run(
    image: SimulationImage,
    exclusive_horizon_ns: Option<u64>,
    event_bound: usize,
) -> usize {
    match first_event_time(image.initial_events@) {
        None => 1,
        Some(first) => match crate::device_sizing::spec_lookahead(image.channels@) {
            None => 2,
            Some(lookahead) => {
                let horizon: nat = match exclusive_horizon_ns {
                    Some(horizon) => horizon as nat,
                    None => 0x1_0000_0000_0000_0000nat,
                };
                let stop: nat = (image.stop_time_ns + 1) as nat;
                let run_end: nat = if horizon <= stop { horizon } else { stop };
                let span: nat = if run_end > first { (run_end - first) as nat } else { 0 };
                let windows = crate::device_sizing::ceil_div(span, lookahead as nat) + 2;
                let time_bound = sat(windows as int);
                let limited = if time_bound <= event_bound.saturating_add(2) {
                    time_bound
                } else {
                    event_bound.saturating_add(2)
                };
                if limited >= 1 { limited } else { 1 }
            },
        },
    }
}

fn first_initial_event_time(image: &SimulationImage) -> (first: Option<u64>)
    ensures
        first == first_event_time(image.initial_events@),
{
    let mut first: Option<u64> = None;
    let mut index: usize = 0;
    while index < image.initial_events.len()
        invariant
            index <= image.initial_events.len(),
            first == first_event_time(image.initial_events@.take(index as int)),
        decreases image.initial_events.len() - index,
    {
        assert(image.initial_events@.take(index as int + 1).drop_last()
            == image.initial_events@.take(index as int));
        let time = image.initial_events[index].key.time_ns;
        first = match first {
            None => Some(time),
            Some(rest) => Some(if rest <= time { rest } else { time }),
        };
        index += 1;
    }
    assert(image.initial_events@.take(index as int) == image.initial_events@);
    first
}

/// Bound on the synchronization rounds of a run.
pub fn derived_round_bound(
    image: &SimulationImage,
    exclusive_horizon_ns: Option<u64>,
    event_bound: usize,
) -> (bound: usize)
    requires
        image.initial_events.len() > 0 && crate::device_sizing::spec_lookahead(image.channels@) is Some
            ==> crate::device_sizing::spec_lookahead(image.channels@)->0 > 0,
    ensures
        bound == spec_round_bound_of_run(*image, exclusive_horizon_ns, event_bound),
{
    let first = match first_initial_event_time(image) {
        None => return 1,
        Some(first) => first,
    };
    let lookahead = match crate::device_sizing::minimum_lookahead(image) {
        None => return 2,
        Some(lookahead) => lookahead,
    };
    let horizon: u128 = match exclusive_horizon_ns {
        Some(horizon) => horizon as u128,
        None => 0x1_0000_0000_0000_0000u128,
    };
    let stop: u128 = image.stop_time_ns as u128 + 1;
    let run_end: u128 = if horizon <= stop { horizon } else { stop };
    let span: u128 = if run_end > first as u128 { run_end - first as u128 } else { 0 };
    let divisor = lookahead as u128;
    let quotient = span / divisor;
    let windows = quotient + if span % divisor == 0 { 0 } else { 1 } + 2;
    proof {
        let s = span as nat;
        let d = divisor as nat;
        assert(s / d + (if s % d == 0 { 0nat } else { 1nat }) == crate::device_sizing::ceil_div(s, d))
            by (nonlinear_arith)
            requires
                d > 0,
        {
            assert(s == d * (s / d) + s % d);
        }
        assert(quotient == s / d);
        assert((span % divisor) as nat == s % d);
    }
    let time_bound: usize = if windows > usize::MAX as u128 { usize::MAX } else { windows as usize };
    let limited = if time_bound <= event_bound.saturating_add(2) {
        time_bound
    } else {
        event_bound.saturating_add(2)
    };
    if limited >= 1 {
        limited
    } else {
        1
    }
}

// ---------------------------------------------------------------------------------------------
// Host-built fallback event lists.

/// Record `slot` of a record arena.
pub open spec fn record_at(storage: Seq<u64>, slot: int) -> Seq<u64> {
    storage.subrange(slot * 14, slot * 14 + 14)
}

/// The first `count` records of an arena region starting at record `offset`.
pub open spec fn region_records(storage: Seq<u64>, offset: int, count: nat) -> Seq<Seq<u64>> {
    Seq::new(count, |index: int| record_at(storage, offset + index))
}

/// Record `a` is ordered no later than record `b` by their event keys.
pub open spec fn record_le(a: Seq<u64>, b: Seq<u64>) -> bool {
    !spec_record_less(b, a)
}

/// Every record is ordered no earlier than its heap parent.
pub open spec fn records_heap_ordered(records: Seq<Seq<u64>>) -> bool {
    forall|index: int|
        #![trigger records[index]]
        0 < index < records.len() ==> record_le(records[heap_parent(index)], records[index])
}

/// Heap order holds everywhere except at `k`'s parent edge, and `k`'s parent precedes `k`'s
/// children.
pub open spec fn records_ordered_except(records: Seq<Seq<u64>>, k: int) -> bool {
    &&& forall|index: int|
        #![trigger records[index]]
        0 < index < records.len() && index != k ==> record_le(
            records[heap_parent(index)],
            records[index],
        )
    &&& forall|index: int|
        #![trigger records[index]]
        0 < index < records.len() && heap_parent(index) == k && k > 0 ==> record_le(
            records[heap_parent(k)],
            records[index],
        )
}

proof fn lemma_record_unchanged(before: Seq<u64>, after: Seq<u64>, slot: int)
    requires
        0 <= slot,
        slot * 14 + 14 <= before.len(),
        before.len() == after.len(),
        forall|word: int| slot * 14 <= word < slot * 14 + 14 ==> #[trigger] after[word] == before[word],
    ensures
        record_at(after, slot) == record_at(before, slot),
{
    assert(record_at(after, slot) =~= record_at(before, slot));
}

/// Writes one record into slot `slot`.
fn write_record(storage: &mut [u64], slot: usize, record: [u64; 14])
    requires
        slot * 14 + 14 <= old(storage)@.len(),
    ensures
        final(storage)@.len() == old(storage)@.len(),
        record_at(final(storage)@, slot as int) == record@,
        forall|word: int|
            0 <= word < old(storage)@.len() && !(slot * 14 <= word < slot * 14 + 14)
                ==> #[trigger] final(storage)@[word] == old(storage)@[word],
{
    let length = storage.len();
    assert(length == storage@.len());
    let offset = slot * 14;
    let mut word: usize = 0;
    while word < 14
        invariant
            word <= 14,
            offset == slot * 14,
            length == storage@.len(),
            offset + 14 <= storage@.len(),
            storage@.len() == old(storage)@.len(),
            forall|w: int| 0 <= w < word ==> #[trigger] storage@[offset + w] == record@[w],
            forall|i: int|
                0 <= i < storage@.len() && !(offset <= i < offset + word) ==> #[trigger] storage@[i]
                    == old(storage)@[i],
        decreases 14 - word,
    {
        storage[offset + word] = record[word];
        word += 1;
    }
    assert(record@.len() == 14);
    assert forall|j: int| 0 <= j < 14 implies #[trigger] record_at(storage@, slot as int)[j] == record@[j] by {
        assert(storage@[offset + j] == record@[j]);
    }
    assert(record_at(storage@, slot as int) =~= record@);
}

/// Exchanges two whole records.
fn swap_records(storage: &mut [u64], a: usize, b: usize)
    requires
        a != b,
        a * 14 + 14 <= old(storage)@.len(),
        b * 14 + 14 <= old(storage)@.len(),
    ensures
        final(storage)@.len() == old(storage)@.len(),
        record_at(final(storage)@, a as int) == record_at(old(storage)@, b as int),
        record_at(final(storage)@, b as int) == record_at(old(storage)@, a as int),
        forall|word: int|
            0 <= word < old(storage)@.len() && !(a * 14 <= word < a * 14 + 14) && !(b * 14 <= word
                < b * 14 + 14) ==> #[trigger] final(storage)@[word] == old(storage)@[word],
{
    let length = storage.len();
    assert(length == storage@.len());
    let first = a * 14;
    let second = b * 14;
    assert(first + 14 <= second || second + 14 <= first);
    let mut word: usize = 0;
    while word < 14
        invariant
            word <= 14,
            a != b,
            length == storage@.len(),
            first == a * 14,
            second == b * 14,
            first + 14 <= storage@.len(),
            second + 14 <= storage@.len(),
            storage@.len() == old(storage)@.len(),
            first + 14 <= second || second + 14 <= first,
            forall|w: int| 0 <= w < word ==> #[trigger] storage@[first + w] == old(storage)@[second + w],
            forall|w: int| 0 <= w < word ==> #[trigger] storage@[second + w] == old(storage)@[first + w],
            forall|i: int|
                0 <= i < storage@.len() && !(first <= i < first + word) && !(second <= i < second
                    + word) ==> #[trigger] storage@[i] == old(storage)@[i],
        decreases 14 - word,
    {
        let held = storage[first + word];
        storage[first + word] = storage[second + word];
        storage[second + word] = held;
        word += 1;
    }
    assert forall|j: int| 0 <= j < 14 implies #[trigger] record_at(storage@, a as int)[j]
        == record_at(old(storage)@, b as int)[j] by {
        assert(storage@[first + j] == old(storage)@[second + j]);
    }
    assert forall|j: int| 0 <= j < 14 implies #[trigger] record_at(storage@, b as int)[j]
        == record_at(old(storage)@, a as int)[j] by {
        assert(storage@[second + j] == old(storage)@[first + j]);
    }
    assert(record_at(storage@, a as int) =~= record_at(old(storage)@, b as int));
    assert(record_at(storage@, b as int) =~= record_at(old(storage)@, a as int));
}

proof fn lemma_swap_keeps_multiset(h: Seq<Seq<u64>>, k: int, p: int)
    requires
        0 <= k < h.len(),
        0 <= p < h.len(),
        k != p,
    ensures
        h.update(k, h[p]).update(p, h[k]).to_multiset() == h.to_multiset(),
{
    broadcast use vstd::multiset::group_multiset_axioms;

    let once = h.update(k, h[p]);
    vstd::seq_lib::to_multiset_update(h, k, h[p]);
    vstd::seq_lib::to_multiset_update(once, p, h[k]);
    assert(once[p] == h[p]);
    vstd::seq_lib::to_multiset_contains(h, h[k]);
    assert(h.contains(h[k]));
    let m = h.to_multiset();
    assert(m.count(h[k]) > 0);
    assert(m.insert(h[p]).remove(h[k]).insert(h[k]).remove(h[p]) =~= m);
}

/// Pushes one record onto an LP's fallback-event heap, refusing it when the heap is full.
///
/// The LP's header holds the heap's first record slot, its capacity and, in word three, its
/// length. The record sifts up past every parent it precedes.
pub fn heap_push_host(
    lp: usize,
    record: [u64; 14],
    meta: &mut [u64],
    storage: &mut [u64],
) -> (pushed: Result<(), crate::cuda::CudaError>)
    requires
        lp * 4 + 3 < old(meta)@.len(),
        old(meta)@[lp * 4] <= usize::MAX,
        old(meta)@[lp * 4 + 1] <= usize::MAX,
        old(meta)@[lp * 4 + 3] < usize::MAX,
        old(meta)@[lp * 4 + 3] != old(meta)@[lp * 4 + 1] ==> (old(meta)@[lp * 4] + old(meta)@[lp
            * 4 + 3] + 1) * 14 <= old(storage)@.len(),
    ensures
        ({
            let offset = old(meta)@[lp * 4] as int;
            let capacity = old(meta)@[lp * 4 + 1] as usize;
            let count = old(meta)@[lp * 4 + 3] as int;
            if count == capacity {
                &&& pushed == Err::<(), crate::cuda::CudaError>(
                    crate::cuda::CudaError::CapacityExceeded {
                        arena: crate::cuda::CudaArena::Fel,
                        node: Some(crate::event::NodeId(lp as u64)),
                        flow: None,
                        stream: None,
                        capacity,
                        demand: (count + 1) as usize,
                    },
                )
                &&& final(meta)@ == old(meta)@
                &&& final(storage)@ == old(storage)@
            } else {
                &&& pushed == Ok::<(), crate::cuda::CudaError>(())
                &&& final(meta)@ == old(meta)@.update(lp * 4 + 3, (count + 1) as u64)
                &&& final(storage)@.len() == old(storage)@.len()
                &&& forall|word: int|
                    0 <= word < old(storage)@.len() && !(offset * 14 <= word < (offset + count + 1)
                        * 14) ==> #[trigger] final(storage)@[word] == old(storage)@[word]
                &&& region_records(final(storage)@, offset, (count + 1) as nat).to_multiset()
                    == region_records(old(storage)@, offset, count as nat).push(
                    record@,
                ).to_multiset()
                &&& records_heap_ordered(region_records(old(storage)@, offset, count as nat))
                    ==> records_heap_ordered(
                    region_records(final(storage)@, offset, (count + 1) as nat),
                )
            }
        }),
{
    let length = storage.len();
    assert(length == storage@.len());
    let meta_length = meta.len();
    assert(meta_length == meta@.len());
    let base = lp * 4;
    let offset = meta[base] as usize;
    let capacity = meta[base + 1] as usize;
    let count = meta[base + 3] as usize;
    if count == capacity {
        return Err(
            crate::cuda::CudaError::CapacityExceeded {
                arena: crate::cuda::CudaArena::Fel,
                node: Some(crate::event::NodeId(lp as u64)),
                flow: None,
                stream: None,
                capacity,
                demand: count + 1,
            },
        );
    }
    let ghost initial = storage@;
    let ghost old_records = region_records(initial, offset as int, count as nat);
    write_record(storage, offset + count, record);
    let count = count + 1;
    meta[base + 3] = count as u64;
    proof {
        let h = region_records(storage@, offset as int, count as nat);
        assert forall|i: int| 0 <= i < count - 1 implies #[trigger] h[i] == old_records[i] by {
            lemma_record_unchanged(initial, storage@, offset + i);
        }
        assert(h =~= old_records.push(record@));
        if records_heap_ordered(old_records) {
            assert forall|i: int|
                #![trigger h[i]]
                0 < i < h.len() && i != count - 1 implies record_le(h[heap_parent(i)], h[i]) by {
                assert(h[i] == old_records[i]);
                assert(h[heap_parent(i)] == old_records[heap_parent(i)]);
            }
        }
    }
    let ghost pushed_records = region_records(storage@, offset as int, count as nat);
    let ghost ordered = records_heap_ordered(old_records);
    let ghost before_sift = storage@;
    let mut child = count - 1;
    while child != 0
        invariant
            child < count,
            count >= 1,
            length == storage@.len(),
            (offset + count) * 14 <= storage@.len(),
            storage@.len() == initial.len(),
            forall|word: int|
                0 <= word < initial.len() && !(offset * 14 <= word < (offset + count) * 14)
                    ==> #[trigger] storage@[word] == before_sift[word],
            region_records(storage@, offset as int, count as nat).to_multiset()
                == pushed_records.to_multiset(),
            ordered ==> records_ordered_except(
                region_records(storage@, offset as int, count as nat),
                child as int,
            ),
            ordered ==> forall|i: int|
                #![trigger region_records(storage@, offset as int, count as nat)[i]]
                0 < i < count && heap_parent(i) == child ==> record_le(
                    region_records(storage@, offset as int, count as nat)[child as int],
                    region_records(storage@, offset as int, count as nat)[i],
                ),
        ensures
            count >= 1,
            storage@.len() == initial.len(),
            forall|word: int|
                0 <= word < initial.len() && !(offset * 14 <= word < (offset + count) * 14)
                    ==> #[trigger] storage@[word] == before_sift[word],
            region_records(storage@, offset as int, count as nat).to_multiset()
                == pushed_records.to_multiset(),
            ordered ==> records_heap_ordered(region_records(storage@, offset as int, count as nat)),
        decreases child,
    {
        let parent = (child - 1) / 2;
        let child_start = (offset + child) * 14;
        let parent_start = (offset + parent) * 14;
        let less = record_less(
            &storage[child_start..child_start + 14],
            &storage[parent_start..parent_start + 14],
        );
        let ghost h = region_records(storage@, offset as int, count as nat);
        proof {
            assert(storage@.subrange(child_start as int, child_start + 14) == h[child as int]);
            assert(storage@.subrange(parent_start as int, parent_start + 14) == h[parent as int]);
        }
        if !less {
            proof {
                if ordered {
                    assert forall|i: int| #![trigger h[i]] 0 < i < h.len() implies record_le(
                        h[heap_parent(i)],
                        h[i],
                    ) by {
                        if i == child {
                        } else if heap_parent(i) == child {
                        }
                    }
                }
            }
            break;
        }
        let ghost before_swap = storage@;
        swap_records(storage, offset + child, offset + parent);
        proof {
            let g = region_records(storage@, offset as int, count as nat);
            let k = child as int;
            let p = parent as int;
            assert forall|i: int| 0 <= i < count implies #[trigger] g[i] == if i == k {
                h[p]
            } else if i == p {
                h[k]
            } else {
                h[i]
            } by {
                if i != k && i != p {
                    lemma_record_unchanged(before_swap, storage@, offset + i);
                }
            }
            assert(g =~= h.update(k, h[p]).update(p, h[k]));
            lemma_swap_keeps_multiset(h, k, p);
            if ordered {
                assert(heap_parent(k) == p);
                assert forall|i: int|
                    #![trigger g[i]]
                    0 < i < g.len() && i != p implies record_le(g[heap_parent(i)], g[i]) by {
                    if heap_parent(i) == k {
                        assert(g[i] == h[i]);
                    } else if i == k {
                    } else if heap_parent(i) == p {
                        assert(g[i] == h[i]);
                        assert(record_le(h[p], h[i]));
                    } else {
                        assert(g[i] == h[i]);
                        assert(g[heap_parent(i)] == h[heap_parent(i)]);
                    }
                }
                assert forall|i: int|
                    #![trigger g[i]]
                    0 < i < g.len() && heap_parent(i) == p && p > 0 implies record_le(
                        g[heap_parent(p)],
                        g[i],
                    ) by {
                    let gp = heap_parent(p);
                    assert(g[gp] == h[gp]);
                    assert(record_le(h[gp], h[p]));
                    if i != k {
                        assert(g[i] == h[i]);
                        assert(record_le(h[p], h[i]));
                    }
                }
                assert forall|i: int|
                    #![trigger g[i]]
                    0 < i < count && heap_parent(i) == p implies record_le(g[p], g[i]) by {
                    if i != k {
                        assert(g[i] == h[i]);
                        assert(record_le(h[p], h[i]));
                    }
                }
            }
        }
        child = parent;
    }
    Ok(())
}

// ---------------------------------------------------------------------------------------------
// Retransmission timer packets.

/// Text of the refusal of a payload with no initial descriptor.
pub open spec fn spec_missing_descriptor_text(payload: crate::event::PayloadId) -> Seq<char> {
    "payload "@ + spec_payload_text(payload) + " has no initial descriptor"@
}

/// Text of the refusal of a timeout that targets no host.
pub open spec fn spec_timeout_without_host_text(key: crate::event::EventKey) -> Seq<char> {
    "TCP timeout "@ + spec_key_text(key) + " targets no host state"@
}

/// Text of the refusal of a timeout owned by several armed timers.
pub open spec fn spec_timeout_with_owners_text(
    key: crate::event::EventKey,
    payload: crate::event::PayloadId,
) -> Seq<char> {
    "TCP timeout "@ + spec_key_text(key) + " payload "@ + spec_payload_text(payload)
        + " has multiple owning active timers"@
}

fn missing_descriptor_message(payload: crate::event::PayloadId) -> (text: String)
    ensures
        text@ == spec_missing_descriptor_text(payload),
{
    let mut text = String::new();
    push_text(&mut text, "payload ");
    push_payload(&mut text, payload);
    push_text(&mut text, " has no initial descriptor");
    assert(text@ =~= spec_missing_descriptor_text(payload));
    text
}

/// The descriptor an initial-packet table keeps for `payload`: the last one listed with that
/// identity, as a table built by inserting the packets in order keeps it.
pub open spec fn spec_packet_for(
    packets: Seq<crate::image::PacketDescriptor>,
    payload: crate::event::PayloadId,
) -> Option<crate::image::PacketDescriptor>
    decreases packets.len(),
{
    if packets.len() == 0 {
        None
    } else if packets.last().id == payload {
        Some(packets.last())
    } else {
        spec_packet_for(packets.drop_last(), payload)
    }
}

/// The initial descriptor of `payload`; a payload without one is a validation failure.
pub fn packet_for(
    packets: &[crate::image::PacketDescriptor],
    payload: crate::event::PayloadId,
) -> (packet: Result<crate::image::PacketDescriptor, crate::cuda::CudaError>)
    ensures
        spec_packet_for(packets@, payload) matches Some(found) ==> packet == Ok::<
            crate::image::PacketDescriptor,
            crate::cuda::CudaError,
        >(found),
        spec_packet_for(packets@, payload) is None ==> (packet matches Err(
            crate::cuda::CudaError::Validation(message),
        ) && message@ == spec_missing_descriptor_text(payload)),
{
    let mut index: usize = packets.len();
    assert(packets@.take(packets@.len() as int) =~= packets@);
    while index > 0
        invariant
            index <= packets@.len(),
            spec_packet_for(packets@, payload) == spec_packet_for(packets@.take(index as int), payload),
        decreases index,
    {
        let candidate = packets[index - 1];
        proof {
            let prefix = packets@.take(index as int);
            assert(prefix.last() == candidate);
            assert(prefix.drop_last() =~= packets@.take(index - 1));
        }
        if candidate.id == payload {
            return Ok(candidate);
        }
        index = index - 1;
    }
    Err(crate::cuda::CudaError::Validation(missing_descriptor_message(payload)))
}

fn timeout_without_host_message(key: crate::event::EventKey) -> (text: String)
    ensures
        text@ == spec_timeout_without_host_text(key),
{
    let mut text = String::new();
    push_text(&mut text, "TCP timeout ");
    push_key(&mut text, key);
    push_text(&mut text, " targets no host state");
    assert(text@ =~= spec_timeout_without_host_text(key));
    text
}

fn timeout_with_owners_message(
    key: crate::event::EventKey,
    payload: crate::event::PayloadId,
) -> (text: String)
    ensures
        text@ == spec_timeout_with_owners_text(key, payload),
{
    let mut text = String::new();
    push_text(&mut text, "TCP timeout ");
    push_key(&mut text, key);
    push_text(&mut text, " payload ");
    push_payload(&mut text, payload);
    push_text(&mut text, " has multiple owning active timers");
    assert(text@ =~= spec_timeout_with_owners_text(key, payload));
    text
}

/// The generator's armed retransmission timer is the one the timeout event fires.
pub open spec fn owns_timeout(generator: FlowGeneratorState, event: crate::event::Event) -> bool {
    match generator.kind {
        FlowGeneratorKind::Tcp(tcp) => match tcp.active_timer {
            Some(timer) => timer.attempt == event.payload && timer.deadline_ns == event.key.time_ns,
            None => false,
        },
        _ => false,
    }
}

/// Generators among `generators` whose timer the event fires.
pub open spec fn timeout_owners(
    generators: Seq<FlowGeneratorState>,
    event: crate::event::Event,
) -> Seq<FlowGeneratorState>
    decreases generators.len(),
{
    if generators.len() == 0 {
        Seq::empty()
    } else {
        let rest = timeout_owners(generators.drop_last(), event);
        if owns_timeout(generators.last(), event) {
            rest.push(generators.last())
        } else {
            rest
        }
    }
}

/// The event targets a host LP whose descriptor carries the event's target identity.
pub open spec fn targets_host(image: SimulationImage, event: crate::event::Event) -> bool {
    &&& event.target.0 < image.nodes.len()
    &&& image.nodes[event.target.0 as int].id == event.target
    &&& image.nodes[event.target.0 as int].kind is Host
}

pub open spec fn timeout_host_owners(image: SimulationImage, event: crate::event::Event) -> Seq<
    FlowGeneratorState,
> {
    let node = image.nodes[event.target.0 as int];
    timeout_owners(image.host_states[node.state_slot as int].generators@, event)
}

/// The retransmitted TCP data packet a timeout stands for: its payload, the owning flow and
/// sequence (no flow and sequence zero when no armed timer owns it), no bytes, sent at the
/// timeout.
pub open spec fn timer_packet(
    event: crate::event::Event,
    owner: Option<FlowGeneratorState>,
) -> crate::image::PacketDescriptor {
    let (flow, sequence) = match owner {
        Some(generator) => (generator.flow, match generator.kind {
            FlowGeneratorKind::Tcp(tcp) => tcp.active_timer->0.sequence,
            _ => 0,
        }),
        None => (crate::event::FlowId(crate::cuda::NONE), 0u64),
    };
    crate::image::PacketDescriptor {
        id: event.payload,
        flow,
        size_bytes: 0,
        ecn_marked: false,
        kind: crate::image::PacketKind::TcpData(
            crate::image::TcpDataHeader {
                sequence,
                sent_time_ns: event.key.time_ns,
                retransmission: true,
            },
        ),
    }
}

/// The packet of a retransmission timeout, refused when the timeout targets no host or more
/// than one armed timer owns it.
pub fn timer_packet_for(image: &SimulationImage, event: crate::event::Event) -> (packet: Result<
    crate::image::PacketDescriptor,
    crate::cuda::CudaError,
>)
    requires
        targets_host(*image, event) ==> image.nodes[event.target.0 as int].state_slot
            < image.host_states.len(),
    ensures
        !targets_host(*image, event) ==> (packet matches Err(
            crate::cuda::CudaError::Validation(message),
        ) && message@ == spec_timeout_without_host_text(event.key)),
        targets_host(*image, event) ==> {
            let owners = timeout_host_owners(*image, event);
            &&& owners.len() > 1 ==> (packet matches Err(
                crate::cuda::CudaError::Validation(message),
            ) && message@ == spec_timeout_with_owners_text(event.key, event.payload))
            &&& owners.len() == 1 ==> packet == Ok::<
                crate::image::PacketDescriptor,
                crate::cuda::CudaError,
            >(timer_packet(event, Some(owners[0])))
            &&& owners.len() == 0 ==> packet == Ok::<
                crate::image::PacketDescriptor,
                crate::cuda::CudaError,
            >(timer_packet(event, None))
        },
{
    let slot = event.target.0;
    if slot >= image.nodes.len() as u64 || image.nodes[slot as usize].id != event.target
        || image.nodes[slot as usize].kind != crate::model::NodeKind::Host {
        return Err(crate::cuda::CudaError::Validation(timeout_without_host_message(event.key)));
    }
    let node = image.nodes[slot as usize];
    let generators = &image.host_states[node.state_slot as usize].generators;
    let mut owner: Option<FlowGeneratorState> = None;
    let mut index: usize = 0;
    while index < generators.len()
        invariant
            index <= generators.len(),
            targets_host(*image, event),
            node == image.nodes[event.target.0 as int],
            generators@ == image.host_states[node.state_slot as int].generators@,
            owner == if timeout_owners(generators@.take(index as int), event).len() == 0 {
                None::<FlowGeneratorState>
            } else {
                Some(timeout_owners(generators@.take(index as int), event)[0])
            },
            timeout_owners(generators@.take(index as int), event).len() <= 1,
        decreases generators.len() - index,
    {
        assert(generators@.take(index as int + 1).drop_last() == generators@.take(index as int));
        let generator = generators[index];
        let owns = match generator.kind {
            FlowGeneratorKind::Tcp(tcp) => match tcp.active_timer {
                Some(timer) => timer.attempt == event.payload && timer.deadline_ns
                    == event.key.time_ns,
                None => false,
            },
            _ => false,
        };
        assert(owns == owns_timeout(generator, event));
        if owns {
            if owner.is_some() {
                proof {
                    lemma_timeout_owners_grow(generators@, event, index as int + 1);
                }
                return Err(
                    crate::cuda::CudaError::Validation(
                        timeout_with_owners_message(event.key, event.payload),
                    ),
                );
            }
            owner = Some(generator);
        }
        index += 1;
    }
    assert(generators@.take(index as int) == generators@);
    proof {
        lemma_owners_own(generators@, event);
    }
    let (flow, sequence) = match owner {
        Some(generator) => (generator.flow, match generator.kind {
            FlowGeneratorKind::Tcp(tcp) => match tcp.active_timer {
                Some(timer) => timer.sequence,
                None => 0,
            },
            _ => 0,
        }),
        None => (crate::event::FlowId(crate::cuda::NONE), 0),
    };
    Ok(
        crate::image::PacketDescriptor {
            id: event.payload,
            flow,
            size_bytes: 0,
            ecn_marked: false,
            kind: crate::image::PacketKind::TcpData(
                crate::image::TcpDataHeader {
                    sequence,
                    sent_time_ns: event.key.time_ns,
                    retransmission: true,
                },
            ),
        },
    )
}

proof fn lemma_owners_own(generators: Seq<FlowGeneratorState>, event: crate::event::Event)
    ensures
        forall|index: int|
            0 <= index < timeout_owners(generators, event).len() ==> owns_timeout(
                #[trigger] timeout_owners(generators, event)[index],
                event,
            ),
    decreases generators.len(),
{
    if generators.len() > 0 {
        lemma_owners_own(generators.drop_last(), event);
        let rest = timeout_owners(generators.drop_last(), event);
        let all = timeout_owners(generators, event);
        assert forall|index: int| 0 <= index < all.len() implies owns_timeout(
            #[trigger] all[index],
            event,
        ) by {
            if index < rest.len() {
                assert(all[index] == rest[index]);
            }
        }
    }
}

proof fn lemma_timeout_owners_grow(
    generators: Seq<FlowGeneratorState>,
    event: crate::event::Event,
    count: int,
)
    requires
        0 <= count <= generators.len(),
    ensures
        timeout_owners(generators.take(count), event).len() <= timeout_owners(
            generators,
            event,
        ).len(),
    decreases generators.len() - count,
{
    if count < generators.len() {
        assert(generators.take(count + 1).drop_last() == generators.take(count));
        lemma_timeout_owners_grow(generators, event, count + 1);
    } else {
        assert(generators.take(count) == generators);
    }
}

} // verus!
