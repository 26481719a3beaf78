//! Exact raw layout shared by the device drain-counter kernels, and its decoder.
//!
//! Each LP owns a disjoint head-count histogram row. Each lowered channel has one immutable source,
//! so its emission counter also has one writer. The diagnostic path therefore uses no atomics and
//! cannot make block completion order part of the observation.
//!
//! The readback plane holds, in order: one invariant flag per LP, each LP's head-count histogram
//! row (bin `h` counts the events selected after visiting `h + 1` heads), and one emission counter
//! per channel.

use vstd::prelude::*;

use crate::aqm_trace::{push_decimal, push_text, push_wide_decimal, spec_decimal};

verus! {

#[derive(Clone, Copy, Debug, PartialEq, Eq, Structural)]
pub struct HeadVisitProfile {
    pub heads_visited: usize,
    pub selected_events: u128,
}

#[derive(Clone, Copy, Debug, PartialEq, Eq, Structural)]
pub struct LookupIterationProfile {
    pub outbound_degree: usize,
    pub binary_search_iterations: usize,
    pub lookups: u128,
}

#[derive(Clone, Copy, Debug, PartialEq, Eq, Structural)]
pub struct OutboundDegreeProfile {
    pub outbound_degree: usize,
    pub producer_count: usize,
    pub remote_emissions: u128,
    pub binary_search_lookups: u128,
    pub binary_search_iterations: u128,
}

#[derive(Clone, Debug, Default, PartialEq, Eq)]
pub struct DrainProfile {
    pub selected_events: u128,
    pub head_visits: u128,
    pub head_visit_histogram: Vec<HeadVisitProfile>,
    pub remote_emissions: u128,
    pub binary_search_lookups: u128,
    pub binary_search_iterations: u128,
    pub lookup_iteration_histogram: Vec<LookupIterationProfile>,
    pub outbound_degrees: Vec<OutboundDegreeProfile>,
}

/// A decoded total that can overflow `u128`, in the order decode forms them.
#[derive(Clone, Copy, Debug, PartialEq, Eq, Structural)]
pub enum OverflowedTotal {
    /// A run-wide head-count bin.
    HeadHistogram,
    /// The selected-event total.
    SelectedEvents,
    /// A bin's events times its head count.
    HeadVisitProduct,
    /// The head-visit total.
    HeadVisitTotal,
    /// A degree row's remote emissions.
    RemoteEmissions,
    /// A degree row's lookups.
    Lookups,
    /// A channel's emissions times its probe count.
    IterationProduct,
    /// A degree row's probes.
    IterationTotal,
    /// A `(degree, probes)` lookup-histogram entry.
    LookupHistogram,
    /// A run-wide emission, lookup or probe total.
    ProfileTotal,
}

/// Why a drain-profile layout or readback was refused.
#[derive(Clone, Copy, Debug, PartialEq, Eq, Structural)]
pub enum DrainProfileError {
    /// Some LP has no head bin; every LP needs at least the fallback-heap bin.
    ZeroHeadBin,
    /// A channel's source is not one of the LPs.
    ChannelSourceOutOfRange { channel: usize, source: usize, nodes: usize },
    /// A source has two channels to the same target.
    DuplicateTargets { source: usize },
    /// The head-histogram layout overflows `usize`.
    HeadLayoutOverflow,
    /// The channel-counter layout overflows `usize`.
    ChannelLayoutOverflow,
    /// The readback does not have the layout's word count.
    ReadbackLength { actual: usize, expected: usize },
    /// An LP reported a nonzero diagnostic invariant flag.
    NodeFlag { node: usize, flag: u64 },
    /// A decoded total overflows `u128`; the first to overflow in decode order is named.
    CounterOverflow(OverflowedTotal),
    /// The per-LP transition totals do not have one entry per LP.
    TransitionTotals { actual: usize, expected: usize },
    /// An LP's histogram row does not add up to its executed transitions.
    TransitionMismatch { node: usize, selected: u128, executed: u64 },
}

/// The diagnostic message of an overflowed total.
pub open spec fn spec_overflow_text(total: OverflowedTotal) -> Seq<char> {
    match total {
        OverflowedTotal::HeadHistogram => "head histogram total overflows u128"@,
        OverflowedTotal::SelectedEvents => "selected-event total overflows u128"@,
        OverflowedTotal::HeadVisitProduct => "head-visit product overflows u128"@,
        OverflowedTotal::HeadVisitTotal => "head-visit total overflows u128"@,
        OverflowedTotal::RemoteEmissions => "remote-emission total overflows u128"@,
        OverflowedTotal::Lookups => "lookup total overflows u128"@,
        OverflowedTotal::IterationProduct => "iteration product overflows u128"@,
        OverflowedTotal::IterationTotal => "iteration total overflows u128"@,
        OverflowedTotal::LookupHistogram => "lookup histogram total overflows u128"@,
        OverflowedTotal::ProfileTotal => "drain profile total overflows u128"@,
    }
}

impl OverflowedTotal {
    /// The diagnostic message of the overflow.
    pub fn message(self) -> (text: &'static str)
        ensures
            text@ == spec_overflow_text(self),
    {
        match self {
            OverflowedTotal::HeadHistogram => "head histogram total overflows u128",
            OverflowedTotal::SelectedEvents => "selected-event total overflows u128",
            OverflowedTotal::HeadVisitProduct => "head-visit product overflows u128",
            OverflowedTotal::HeadVisitTotal => "head-visit total overflows u128",
            OverflowedTotal::RemoteEmissions => "remote-emission total overflows u128",
            OverflowedTotal::Lookups => "lookup total overflows u128",
            OverflowedTotal::IterationProduct => "iteration product overflows u128",
            OverflowedTotal::IterationTotal => "iteration total overflows u128",
            OverflowedTotal::LookupHistogram => "lookup histogram total overflows u128",
            OverflowedTotal::ProfileTotal => "drain profile total overflows u128",
        }
    }
}

/// The diagnostic message of a drain-profile refusal.
pub open spec fn spec_drain_error_text(error: DrainProfileError) -> Seq<char> {
    match error {
        DrainProfileError::ZeroHeadBin => "every LP needs at least the fallback-heap head bin"@,
        DrainProfileError::ChannelSourceOutOfRange { channel, source, nodes } => "channel "@
            + spec_decimal(channel as nat) + " source "@ + spec_decimal(source as nat)
            + " is outside "@ + spec_decimal(nodes as nat) + " LPs"@,
        DrainProfileError::DuplicateTargets { source } => "source "@ + spec_decimal(source as nat)
            + " has duplicate target channels"@,
        DrainProfileError::HeadLayoutOverflow => "drain head-histogram layout overflows usize"@,
        DrainProfileError::ChannelLayoutOverflow => "drain channel layout overflows usize"@,
        DrainProfileError::ReadbackLength { actual, expected } => "drain profile readback has "@
            + spec_decimal(actual as nat) + " words, expected "@ + spec_decimal(expected as nat),
        DrainProfileError::NodeFlag { node, flag } => "drain profile node "@ + spec_decimal(
            node as nat,
        ) + " reported diagnostic invariant flag "@ + spec_decimal(flag as nat),
        DrainProfileError::CounterOverflow(total) => spec_overflow_text(total),
        DrainProfileError::TransitionTotals { actual, expected } => "drain profile has "@
            + spec_decimal(actual as nat) + " LP transition totals, expected "@ + spec_decimal(
            expected as nat,
        ),
        DrainProfileError::TransitionMismatch { node, selected, executed } => "drain profile LP "@
            + spec_decimal(node as nat) + " selected "@ + spec_decimal(selected as nat)
            + " events but executed "@ + spec_decimal(executed as nat) + " transitions"@,
    }
}

impl DrainProfileError {
    /// The diagnostic message of the refusal.
    pub fn message(&self) -> (text: String)
        ensures
            text@ == spec_drain_error_text(*self),
    {
        let mut text = String::new();
        match *self {
            DrainProfileError::ZeroHeadBin => {
                push_text(&mut text, "every LP needs at least the fallback-heap head bin");
            },
            DrainProfileError::ChannelSourceOutOfRange { channel, source, nodes } => {
                push_text(&mut text, "channel ");
                push_decimal(&mut text, channel as u64);
                push_text(&mut text, " source ");
                push_decimal(&mut text, source as u64);
                push_text(&mut text, " is outside ");
                push_decimal(&mut text, nodes as u64);
                push_text(&mut text, " LPs");
            },
            DrainProfileError::DuplicateTargets { source } => {
                push_text(&mut text, "source ");
                push_decimal(&mut text, source as u64);
                push_text(&mut text, " has duplicate target channels");
            },
            DrainProfileError::HeadLayoutOverflow => {
                push_text(&mut text, "drain head-histogram layout overflows usize");
            },
            DrainProfileError::ChannelLayoutOverflow => {
                push_text(&mut text, "drain channel layout overflows usize");
            },
            DrainProfileError::ReadbackLength { actual, expected } => {
                push_text(&mut text, "drain profile readback has ");
                push_decimal(&mut text, actual as u64);
                push_text(&mut text, " words, expected ");
                push_decimal(&mut text, expected as u64);
            },
            DrainProfileError::NodeFlag { node, flag } => {
                push_text(&mut text, "drain profile node ");
                push_decimal(&mut text, node as u64);
                push_text(&mut text, " reported diagnostic invariant flag ");
                push_decimal(&mut text, flag);
            },
            DrainProfileError::CounterOverflow(total) => {
                push_text(&mut text, total.message());
            },
            DrainProfileError::TransitionTotals { actual, expected } => {
                push_text(&mut text, "drain profile has ");
                push_decimal(&mut text, actual as u64);
                push_text(&mut text, " LP transition totals, expected ");
                push_decimal(&mut text, expected as u64);
            },
            DrainProfileError::TransitionMismatch { node, selected, executed } => {
                push_text(&mut text, "drain profile LP ");
                push_decimal(&mut text, node as u64);
                push_text(&mut text, " selected ");
                push_wide_decimal(&mut text, selected);
                push_text(&mut text, " events but executed ");
                push_decimal(&mut text, executed);
                push_text(&mut text, " transitions");
            },
        }
        assert(text@ =~= spec_drain_error_text(*self));
        text
    }
}

/// One immutable channel lookup represented in the exact device-counter layout.
#[derive(Clone, Copy, Debug, PartialEq, Eq, Structural)]
pub struct DrainProfileChannel {
    pub source: usize,
    pub target: u64,
}

/// Word range `[start, end)` of one LP's head-count histogram row.
#[derive(Clone, Copy, Debug, PartialEq, Eq, Structural)]
pub struct HeadRange {
    pub start: usize,
    pub end: usize,
}

/// What the layout knows of one channel's lookup at its source.
#[derive(Clone, Copy, Debug, PartialEq, Eq, Structural)]
pub struct ChannelLookup {
    /// Channels leaving the same source.
    pub outbound_degree: usize,
    /// Probes a lower-bound binary search over the source's ascending targets makes to find
    /// this channel's target; zero for a lone channel.
    pub binary_search_iterations: usize,
    /// Index of the degree row of `outbound_degree`.
    pub degree_row: usize,
}

/// Number of LPs with a given outbound degree.
#[derive(Clone, Copy, Debug, PartialEq, Eq, Structural)]
pub struct DegreeRow {
    pub outbound_degree: usize,
    pub producer_count: usize,
}

// ---------------------------------------------------------------------------------------------
// The layout as a function of its inputs.
// ---------------------------------------------------------------------------------------------

/// Indices, in channel order, of the first `upto` channels that leave `source`.
pub open spec fn spec_outbound(channels: Seq<DrainProfileChannel>, source: int, upto: int) -> Seq<usize>
    decreases upto,
{
    if upto <= 0 {
        Seq::empty()
    } else if channels[upto - 1].source == source {
        spec_outbound(channels, source, upto - 1).push((upto - 1) as usize)
    } else {
        spec_outbound(channels, source, upto - 1)
    }
}

/// All channels leaving `source`, in channel order.
pub open spec fn spec_source_channels(channels: Seq<DrainProfileChannel>, source: int) -> Seq<usize> {
    spec_outbound(channels, source, channels.len() as int)
}

/// Number of channels leaving `source`.
pub open spec fn spec_out_degree(channels: Seq<DrainProfileChannel>, source: int) -> int {
    spec_source_channels(channels, source).len() as int
}

/// Two channels of the list share a target.
pub open spec fn spec_has_duplicate_target(channels: Seq<DrainProfileChannel>, list: Seq<usize>) -> bool {
    exists|a: int, b: int|
        0 <= a < b < list.len() && #[trigger] channels[list[a] as int].target
            == #[trigger] channels[list[b] as int].target
}

/// Among the first `upto` channels of the list, those whose target is below `target`.
pub open spec fn spec_count_below(
    channels: Seq<DrainProfileChannel>,
    list: Seq<usize>,
    target: u64,
    upto: int,
) -> int
    decreases upto,
{
    if upto <= 0 {
        0
    } else {
        spec_count_below(channels, list, target, upto - 1) + if channels[list[upto - 1] as int].target
            < target {
            1int
        } else {
            0int
        }
    }
}

/// Position of channel `channel`'s target among its source's ascending targets.
pub open spec fn spec_target_rank(channels: Seq<DrainProfileChannel>, channel: int) -> int {
    let list = spec_source_channels(channels, channels[channel].source as int);
    spec_count_below(channels, list, channels[channel].target, list.len() as int)
}

/// Probes a lower-bound binary search over `[low, high)` makes when the sought entry sits at
/// position `rank`: it halves the interval until it is empty.
pub open spec fn spec_probe_count(low: int, high: int, rank: int) -> int
    decreases high - low,
{
    if low < high {
        let middle = low + (high - low) / 2;
        1 + if middle < rank {
            spec_probe_count(middle + 1, high, rank)
        } else {
            spec_probe_count(low, middle, rank)
        }
    } else {
        0
    }
}

/// Lookup probes for channel `channel`: none for a lone channel, else a lower-bound search.
pub open spec fn spec_channel_iterations(channels: Seq<DrainProfileChannel>, channel: int) -> int {
    let degree = spec_out_degree(channels, channels[channel].source as int);
    if degree == 1 {
        0
    } else {
        spec_probe_count(0, degree, spec_target_rank(channels, channel))
    }
}

/// Among the first `upto` LPs, those with outbound degree `degree`.
pub open spec fn spec_producer_count(channels: Seq<DrainProfileChannel>, degree: int, upto: int) -> int
    decreases upto,
{
    if upto <= 0 {
        0
    } else {
        spec_producer_count(channels, degree, upto - 1) + if spec_out_degree(channels, upto - 1)
            == degree {
            1int
        } else {
            0int
        }
    }
}

/// Ascending rows, for the degrees below `upto`, of the degrees some LP has.
pub open spec fn spec_degree_rows(channels: Seq<DrainProfileChannel>, nodes: int, upto: int) -> Seq<
    DegreeRow,
>
    decreases upto,
{
    if upto <= 0 {
        Seq::empty()
    } else {
        let before = spec_degree_rows(channels, nodes, upto - 1);
        let count = spec_producer_count(channels, upto - 1, nodes);
        if count > 0 {
            before.push(
                DegreeRow { outbound_degree: (upto - 1) as usize, producer_count: count as usize },
            )
        } else {
            before
        }
    }
}

/// Sum of the first `upto` entries of `values`.
pub open spec fn spec_prefix_sum(values: Seq<usize>, upto: int) -> int
    decreases upto,
{
    if upto <= 0 {
        0
    } else {
        spec_prefix_sum(values, upto - 1) + values[upto - 1]
    }
}

/// First channel at or after `channel` whose source is not an LP, or the channel count.
pub open spec fn spec_first_stray_channel(channels: Seq<DrainProfileChannel>, nodes: int, channel: int) -> int
    decreases channels.len() - channel,
{
    if channel >= channels.len() {
        channels.len() as int
    } else if channels[channel].source >= nodes {
        channel
    } else {
        spec_first_stray_channel(channels, nodes, channel + 1)
    }
}

/// First LP at or after `source` with two channels to one target, or the LP count.
pub open spec fn spec_first_duplicate_source(channels: Seq<DrainProfileChannel>, nodes: int, source: int) -> int
    decreases nodes - source,
{
    if source >= nodes {
        nodes
    } else if spec_has_duplicate_target(channels, spec_source_channels(channels, source)) {
        source
    } else {
        spec_first_duplicate_source(channels, nodes, source + 1)
    }
}

/// The refusal `DrainProfileLayout::new` gives for these inputs, if any.
pub open spec fn spec_layout_error(heads: Seq<usize>, channels: Seq<DrainProfileChannel>) -> Option<
    DrainProfileError,
> {
    let nodes = heads.len() as int;
    let stray = spec_first_stray_channel(channels, nodes, 0);
    let duplicate = spec_first_duplicate_source(channels, nodes, 0);
    let emissions = nodes + spec_prefix_sum(heads, nodes);
    if exists|i: int| 0 <= i < heads.len() && heads[i] == 0 {
        Some(DrainProfileError::ZeroHeadBin)
    } else if stray < channels.len() {
        Some(
            DrainProfileError::ChannelSourceOutOfRange {
                channel: stray as usize,
                source: channels[stray].source,
                nodes: nodes as usize,
            },
        )
    } else if duplicate < nodes {
        Some(DrainProfileError::DuplicateTargets { source: duplicate as usize })
    } else if emissions > usize::MAX {
        Some(DrainProfileError::HeadLayoutOverflow)
    } else if emissions + channels.len() > usize::MAX {
        Some(DrainProfileError::ChannelLayoutOverflow)
    } else {
        None
    }
}

// ---------------------------------------------------------------------------------------------
// Lemmas about the input model.
// ---------------------------------------------------------------------------------------------

proof fn lemma_outbound_bounded(channels: Seq<DrainProfileChannel>, source: int, upto: int)
    requires
        0 <= upto <= channels.len(),
        channels.len() <= usize::MAX,
    ensures
        spec_outbound(channels, source, upto).len() <= upto,
        forall|k: int|
            0 <= k < spec_outbound(channels, source, upto).len() ==> {
                let c = #[trigger] spec_outbound(channels, source, upto)[k];
                &&& c < upto
                &&& channels[c as int].source == source
            },
    decreases upto,
{
    if upto > 0 {
        lemma_outbound_bounded(channels, source, upto - 1);
        let before = spec_outbound(channels, source, upto - 1);
        let after = spec_outbound(channels, source, upto);
        assert forall|k: int| 0 <= k < after.len() implies {
            let c = #[trigger] after[k];
            &&& c < upto
            &&& channels[c as int].source == source
        } by {
            if k < before.len() {
                assert(after[k] == before[k]);
            }
        }
    }
}

proof fn lemma_count_below_bounded(
    channels: Seq<DrainProfileChannel>,
    list: Seq<usize>,
    target: u64,
    upto: int,
)
    requires
        0 <= upto,
    ensures
        0 <= spec_count_below(channels, list, target, upto) <= upto,
    decreases upto,
{
    if upto > 0 {
        lemma_count_below_bounded(channels, list, target, upto - 1);
    }
}

proof fn lemma_probe_count_bounded(low: int, high: int, rank: int)
    requires
        low <= high,
    ensures
        0 <= spec_probe_count(low, high, rank) <= high - low,
    decreases high - low,
{
    if low < high {
        let middle = low + (high - low) / 2;
        if middle < rank {
            lemma_probe_count_bounded(middle + 1, high, rank);
        } else {
            lemma_probe_count_bounded(low, middle, rank);
        }
    }
}

proof fn lemma_producer_count_monotone(channels: Seq<DrainProfileChannel>, degree: int, a: int, b: int)
    requires
        0 <= a <= b,
    ensures
        0 <= spec_producer_count(channels, degree, a) <= spec_producer_count(channels, degree, b),
        spec_producer_count(channels, degree, b) <= b,
    decreases b,
{
    if b > 0 {
        if a == b {
            lemma_producer_count_monotone(channels, degree, a - 1, b - 1);
        } else {
            lemma_producer_count_monotone(channels, degree, a, b - 1);
        }
    }
}

proof fn lemma_prefix_sum_monotone(values: Seq<usize>, a: int, b: int)
    requires
        0 <= a <= b <= values.len(),
    ensures
        0 <= spec_prefix_sum(values, a) <= spec_prefix_sum(values, b),
    decreases b,
{
    if b > 0 {
        if a == b {
            lemma_prefix_sum_monotone(values, a - 1, b - 1);
        } else {
            lemma_prefix_sum_monotone(values, a, b - 1);
        }
    }
}

proof fn lemma_prefix_sum_at_least_count(values: Seq<usize>, upto: int)
    requires
        0 <= upto <= values.len(),
        forall|i: int| 0 <= i < values.len() ==> values[i] != 0,
    ensures
        spec_prefix_sum(values, upto) >= upto,
    decreases upto,
{
    if upto > 0 {
        lemma_prefix_sum_at_least_count(values, upto - 1);
    }
}

proof fn lemma_degree_rows_shape(channels: Seq<DrainProfileChannel>, nodes: int, upto: int)
    requires
        0 <= nodes <= usize::MAX,
        upto <= usize::MAX + 1,
    ensures
        forall|k: int|
            0 <= k < spec_degree_rows(channels, nodes, upto).len() ==> {
                let row = #[trigger] spec_degree_rows(channels, nodes, upto)[k];
                &&& row.outbound_degree < upto
                &&& row.producer_count == spec_producer_count(channels, row.outbound_degree as int, nodes)
                &&& row.producer_count > 0
            },
        forall|a: int, b: int|
            0 <= a < b < spec_degree_rows(channels, nodes, upto).len() ==> (#[trigger] spec_degree_rows(
                channels,
                nodes,
                upto,
            )[a]).outbound_degree < (#[trigger] spec_degree_rows(channels, nodes, upto)[b]).outbound_degree,
    decreases upto,
{
    if upto > 0 {
        lemma_degree_rows_shape(channels, nodes, upto - 1);
        lemma_producer_count_monotone(channels, upto - 1, nodes, nodes);
        let before = spec_degree_rows(channels, nodes, upto - 1);
        let after = spec_degree_rows(channels, nodes, upto);
        assert forall|k: int| 0 <= k < after.len() implies {
            let row = #[trigger] after[k];
            &&& row.outbound_degree < upto
            &&& row.producer_count == spec_producer_count(channels, row.outbound_degree as int, nodes)
            &&& row.producer_count > 0
        } by {
            if k < before.len() {
                assert(after[k] == before[k]);
            }
        }
        assert forall|a: int, b: int| 0 <= a < b < after.len() implies (#[trigger] after[a]).outbound_degree
            < (#[trigger] after[b]).outbound_degree by {
            if b < before.len() {
                assert(after[a] == before[a]);
                assert(after[b] == before[b]);
            } else {
                assert(after[a] == before[a]);
            }
        }
    }
}

// ---------------------------------------------------------------------------------------------
// Building the layout.
// ---------------------------------------------------------------------------------------------

/// Groups channel indices by source, in channel order; refuses the first channel whose source is
/// not an LP.
fn collect_outbound(nodes: usize, channels: &[DrainProfileChannel]) -> (result: Result<
    Vec<Vec<usize>>,
    DrainProfileError,
>)
    ensures
        spec_first_stray_channel(channels@, nodes as int, 0) < channels@.len() ==> result == Err::<
            Vec<Vec<usize>>,
            _,
        >(
            DrainProfileError::ChannelSourceOutOfRange {
                channel: spec_first_stray_channel(channels@, nodes as int, 0) as usize,
                source: channels@[spec_first_stray_channel(channels@, nodes as int, 0)].source,
                nodes,
            },
        ),
        spec_first_stray_channel(channels@, nodes as int, 0) == channels@.len() ==> (result matches Ok(
            lists,
        ) && lists@.len() == nodes && forall|source: int|
            0 <= source < nodes ==> (#[trigger] lists@[source])@ == spec_source_channels(
                channels@,
                source,
            )),
{
    let mut lists: Vec<Vec<usize>> = Vec::new();
    let mut source: usize = 0;
    while source < nodes
        invariant
            source <= nodes,
            lists@.len() == source,
            forall|s: int| 0 <= s < source ==> (#[trigger] lists@[s])@ == Seq::<usize>::empty(),
        decreases nodes - source,
    {
        lists.push(Vec::new());
        source = source + 1;
    }
    let mut channel: usize = 0;
    while channel < channels.len()
        invariant
            channel <= channels@.len(),
            lists@.len() == nodes,
            forall|s: int|
                0 <= s < nodes ==> (#[trigger] lists@[s])@ == spec_outbound(
                    channels@,
                    s,
                    channel as int,
                ),
            spec_first_stray_channel(channels@, nodes as int, 0) == spec_first_stray_channel(
                channels@,
                nodes as int,
                channel as int,
            ),
        decreases channels@.len() - channel,
    {
        let source = channels[channel].source;
        if source >= nodes {
            return Err(DrainProfileError::ChannelSourceOutOfRange { channel, source, nodes });
        }
        let ghost before = lists@;
        lists[source].push(channel);
        proof {
            assert forall|s: int| 0 <= s < nodes implies (#[trigger] lists@[s])@ == spec_outbound(
                channels@,
                s,
                channel + 1,
            ) by {
                if s != source {
                    assert(lists@[s] == before[s]);
                }
            }
        }
        channel = channel + 1;
    }
    Ok(lists)
}

/// Whether two channels of the list share a target.
fn has_duplicate_target(channels: &[DrainProfileChannel], list: &Vec<usize>) -> (duplicate: bool)
    requires
        forall|k: int| 0 <= k < list@.len() ==> (#[trigger] list@[k]) < channels@.len(),
    ensures
        duplicate == spec_has_duplicate_target(channels@, list@),
{
    let mut a: usize = 0;
    while a < list.len()
        invariant
            a <= list@.len(),
            forall|k: int| 0 <= k < list@.len() ==> (#[trigger] list@[k]) < channels@.len(),
            forall|x: int, y: int|
                0 <= x < a && x < y < list@.len() ==> #[trigger] channels@[list@[x] as int].target
                    != #[trigger] channels@[list@[y] as int].target,
        decreases list@.len() - a,
    {
        let target = channels[list[a]].target;
        let mut b: usize = a + 1;
        while b < list.len()
            invariant
                a < b <= list@.len(),
                forall|k: int| 0 <= k < list@.len() ==> (#[trigger] list@[k]) < channels@.len(),
                target == channels@[list@[a as int] as int].target,
                forall|y: int| a < y < b ==> #[trigger] channels@[list@[y] as int].target != target,
            decreases list@.len() - b,
        {
            if channels[list[b]].target == target {
                proof {
                    assert(channels@[list@[a as int] as int].target == channels@[list@[b as int] as int].target);
                }
                return true;
            }
            b = b + 1;
        }
        a = a + 1;
    }
    false
}

/// Number of channels of the list whose target is below `target`.
fn count_below(channels: &[DrainProfileChannel], list: &Vec<usize>, target: u64) -> (count: usize)
    requires
        forall|k: int| 0 <= k < list@.len() ==> (#[trigger] list@[k]) < channels@.len(),
    ensures
        count == spec_count_below(channels@, list@, target, list@.len() as int),
{
    let mut count: usize = 0;
    let mut k: usize = 0;
    while k < list.len()
        invariant
            k <= list@.len(),
            forall|j: int| 0 <= j < list@.len() ==> (#[trigger] list@[j]) < channels@.len(),
            count == spec_count_below(channels@, list@, target, k as int),
            count <= k,
        decreases list@.len() - k,
    {
        if channels[list[k]].target < target {
            count = count + 1;
        }
        k = k + 1;
    }
    count
}

/// Probes of a lower-bound binary search over `len` ascending entries for the entry at `rank`.
fn lower_bound_iterations(len: usize, rank: usize) -> (iterations: usize)
    ensures
        iterations == spec_probe_count(0, len as int, rank as int),
{
    let mut low: usize = 0;
    let mut high: usize = len;
    let mut iterations: usize = 0;
    proof {
        lemma_probe_count_bounded(0, len as int, rank as int);
    }
    while low < high
        invariant
            low <= high <= len,
            iterations + spec_probe_count(low as int, high as int, rank as int) == spec_probe_count(
                0,
                len as int,
                rank as int,
            ),
            spec_probe_count(0, len as int, rank as int) <= len,
        decreases high - low,
    {
        let middle = low + (high - low) / 2;
        proof {
            lemma_probe_count_bounded(middle + 1, high as int, rank as int);
            lemma_probe_count_bounded(low as int, middle as int, rank as int);
            assert(spec_probe_count(low as int, high as int, rank as int) >= 1);
        }
        iterations = iterations + 1;
        if middle < rank {
            low = middle + 1;
        } else {
            high = middle;
        }
    }
    iterations
}

/// Exact raw layout shared by the device drain-counter kernels.
#[derive(Clone, Debug, PartialEq, Eq)]
pub struct DrainProfileLayout {
    head_ranges: Vec<HeadRange>,
    channel_lookups: Vec<ChannelLookup>,
    degree_rows: Vec<DegreeRow>,
    head_histogram_offset: usize,
    channel_emissions_offset: usize,
    words: usize,
}

pub open spec fn spec_max_usize(a: int, b: int) -> int {
    if a >= b {
        a
    } else {
        b
    }
}

proof fn lemma_first_stray_bounds(channels: Seq<DrainProfileChannel>, nodes: int, channel: int)
    requires
        0 <= channel <= channels.len(),
    ensures
        channel <= spec_first_stray_channel(channels, nodes, channel) <= channels.len(),
        spec_first_stray_channel(channels, nodes, channel) < channels.len() ==> channels[spec_first_stray_channel(
            channels,
            nodes,
            channel,
        )].source >= nodes,
        spec_first_stray_channel(channels, nodes, channel) == channels.len() ==> forall|c: int|
            channel <= c < channels.len() ==> (#[trigger] channels[c]).source < nodes,
    decreases channels.len() - channel,
{
    if channel < channels.len() && channels[channel].source < nodes {
        lemma_first_stray_bounds(channels, nodes, channel + 1);
    }
}

proof fn lemma_first_duplicate_bounds(channels: Seq<DrainProfileChannel>, nodes: int, source: int)
    requires
        0 <= source <= nodes,
    ensures
        source <= spec_first_duplicate_source(channels, nodes, source) <= nodes,
    decreases nodes - source,
{
    if source < nodes && !spec_has_duplicate_target(channels, spec_source_channels(channels, source)) {
        lemma_first_duplicate_bounds(channels, nodes, source + 1);
    }
}

proof fn lemma_producer_of_source(channels: Seq<DrainProfileChannel>, source: int, nodes: int)
    requires
        0 <= source < nodes,
    ensures
        spec_producer_count(channels, spec_out_degree(channels, source), nodes) >= 1,
{
    lemma_producer_count_monotone(channels, spec_out_degree(channels, source), source + 1, nodes);
    lemma_producer_count_monotone(channels, spec_out_degree(channels, source), source, source);
}

impl DrainProfileLayout {
    /// Word range of each LP's head-count histogram row.
    pub closed spec fn head_ranges(&self) -> Seq<HeadRange> {
        self.head_ranges@
    }

    /// Lookup facts of each channel.
    pub closed spec fn channel_lookups(&self) -> Seq<ChannelLookup> {
        self.channel_lookups@
    }

    /// One row per outbound degree some LP has, ascending.
    pub closed spec fn degree_rows(&self) -> Seq<DegreeRow> {
        self.degree_rows@
    }

    pub closed spec fn spec_head_histogram_offset(&self) -> usize {
        self.head_histogram_offset
    }

    pub closed spec fn spec_channel_emissions_offset(&self) -> usize {
        self.channel_emissions_offset
    }

    pub closed spec fn spec_words(&self) -> usize {
        self.words
    }

    /// Number of LPs.
    pub open spec fn node_count(&self) -> int {
        self.head_ranges().len() as int
    }

    /// The layout's internal invariant: flags, then histogram rows inside
    /// `[LP count, emission offset)`, then one emission counter per channel; every channel's
    /// degree has its row, rows ascend by degree, and a lookup probes at most its degree times.
    pub open spec fn wf(&self) -> bool {
        let nodes = self.node_count();
        let emissions = self.spec_channel_emissions_offset() as int;
        let channels = self.channel_lookups().len() as int;
        &&& self.spec_head_histogram_offset() == nodes
        &&& nodes <= emissions
        &&& forall|i: int|
            0 <= i < nodes ==> nodes <= (#[trigger] self.head_ranges()[i]).start
                <= self.head_ranges()[i].end <= emissions
        &&& emissions + channels <= usize::MAX
        &&& channels < usize::MAX
        &&& self.spec_words() == spec_max_usize(emissions + channels, 1)
        &&& forall|c: int|
            0 <= c < channels ==> {
                let lookup = #[trigger] self.channel_lookups()[c];
                &&& lookup.degree_row < self.degree_rows().len()
                &&& self.degree_rows()[lookup.degree_row as int].outbound_degree == lookup.outbound_degree
                &&& lookup.binary_search_iterations <= lookup.outbound_degree
            }
        &&& forall|a: int, b: int|
            0 <= a < b < self.degree_rows().len() ==> (#[trigger] self.degree_rows()[a]).outbound_degree
                < (#[trigger] self.degree_rows()[b]).outbound_degree
        &&& forall|k: int|
            0 <= k < self.degree_rows().len() ==> (#[trigger] self.degree_rows()[k]).outbound_degree
                <= channels
    }

    /// The layout is the one these inputs describe: rows packed after the flags in LP order,
    /// emission counters after the rows, and per-channel lookup facts and per-degree producer
    /// counts taken from the channel list.
    pub open spec fn describes(&self, heads: Seq<usize>, channels: Seq<DrainProfileChannel>) -> bool {
        let nodes = heads.len() as int;
        &&& self.node_count() == nodes
        &&& forall|i: int|
            0 <= i < nodes ==> #[trigger] self.head_ranges()[i] == (HeadRange {
                start: (nodes + spec_prefix_sum(heads, i)) as usize,
                end: (nodes + spec_prefix_sum(heads, i + 1)) as usize,
            })
        &&& self.spec_channel_emissions_offset() == nodes + spec_prefix_sum(heads, nodes)
        &&& self.channel_lookups().len() == channels.len()
        &&& forall|c: int|
            0 <= c < channels.len() ==> {
                let lookup = #[trigger] self.channel_lookups()[c];
                &&& lookup.outbound_degree == spec_out_degree(channels, channels[c].source as int)
                &&& lookup.binary_search_iterations == spec_channel_iterations(channels, c)
            }
        &&& self.degree_rows() == spec_degree_rows(channels, nodes, channels.len() + 1int)
    }

    pub fn new(maximum_heads_by_node: &[usize], channels: &[DrainProfileChannel]) -> (result: Result<
        Self,
        DrainProfileError,
    >)
        ensures
            spec_layout_error(maximum_heads_by_node@, channels@) matches Some(error) ==> result
                == Err::<Self, _>(error),
            spec_layout_error(maximum_heads_by_node@, channels@) is None ==> (result matches Ok(layout)
                && layout.wf() && layout.describes(maximum_heads_by_node@, channels@)),
    {
        let nodes = maximum_heads_by_node.len();
        let channel_count = channels.len();
        let mut i: usize = 0;
        while i < nodes
            invariant
                i <= nodes == maximum_heads_by_node@.len(),
                forall|j: int| 0 <= j < i ==> maximum_heads_by_node@[j] != 0,
            decreases nodes - i,
        {
            if maximum_heads_by_node[i] == 0 {
                assert(maximum_heads_by_node@[i as int] == 0);
                return Err(DrainProfileError::ZeroHeadBin);
            }
            i = i + 1;
        }
        proof {
            lemma_first_stray_bounds(channels@, nodes as int, 0);
            lemma_first_duplicate_bounds(channels@, nodes as int, 0);
        }
        let lists = match collect_outbound(nodes, channels) {
            Ok(lists) => lists,
            Err(error) => {
                return Err(error);
            },
        };
        let mut source: usize = 0;
        while source < nodes
            invariant
                source <= nodes == maximum_heads_by_node@.len(),
                lists@.len() == nodes,
                channels@.len() <= usize::MAX,
                forall|s: int|
                    0 <= s < nodes ==> (#[trigger] lists@[s])@ == spec_source_channels(channels@, s),
                spec_first_duplicate_source(channels@, nodes as int, 0) == spec_first_duplicate_source(
                    channels@,
                    nodes as int,
                    source as int,
                ),
                forall|j: int| 0 <= j < nodes ==> maximum_heads_by_node@[j] != 0,
                spec_first_stray_channel(channels@, nodes as int, 0) == channels@.len(),
            decreases nodes - source,
        {
            proof {
                lemma_outbound_bounded(channels@, source as int, channels@.len() as int);
            }
            if has_duplicate_target(channels, &lists[source]) {
                return Err(DrainProfileError::DuplicateTargets { source });
            }
            source = source + 1;
        }
        assert(spec_first_duplicate_source(channels@, nodes as int, 0) == nodes);

        // Histogram rows, packed after the flags.
        let mut head_ranges: Vec<HeadRange> = Vec::new();
        let mut next: usize = nodes;
        let mut i: usize = 0;
        while i < nodes
            invariant
                i <= nodes == maximum_heads_by_node@.len(),
                next == nodes + spec_prefix_sum(maximum_heads_by_node@, i as int),
                forall|j: int| 0 <= j < nodes ==> maximum_heads_by_node@[j] != 0,
                spec_first_stray_channel(channels@, nodes as int, 0) == channels@.len(),
                spec_first_duplicate_source(channels@, nodes as int, 0) == nodes,
                head_ranges@.len() == i,
                forall|j: int|
                    0 <= j < i ==> #[trigger] head_ranges@[j] == (HeadRange {
                        start: (nodes + spec_prefix_sum(maximum_heads_by_node@, j)) as usize,
                        end: (nodes + spec_prefix_sum(maximum_heads_by_node@, j + 1)) as usize,
                    }),
            decreases nodes - i,
        {
            proof {
                lemma_prefix_sum_monotone(maximum_heads_by_node@, i + 1, nodes as int);
            }
            if maximum_heads_by_node[i] > usize::MAX - next {
                return Err(DrainProfileError::HeadLayoutOverflow);
            }
            let end = next + maximum_heads_by_node[i];
            head_ranges.push(HeadRange { start: next, end });
            next = end;
            i = i + 1;
        }
        let emissions = next;
        if channels.len() > usize::MAX - emissions {
            return Err(DrainProfileError::ChannelLayoutOverflow);
        }
        let words = if emissions + channels.len() >= 1 {
            emissions + channels.len()
        } else {
            1
        };

        proof {
            lemma_prefix_sum_at_least_count(maximum_heads_by_node@, nodes as int);
            lemma_first_stray_bounds(channels@, nodes as int, 0);
            if channel_count > 0 {
                assert(channels@[0].source < nodes);
            }
        }
        let (degree_rows, channel_lookups) = degree_tables(nodes, channels, &lists);
        let layout = DrainProfileLayout {
            head_ranges,
            channel_lookups,
            degree_rows,
            head_histogram_offset: nodes,
            channel_emissions_offset: emissions,
            words,
        };
        proof {
            assert forall|i: int| 0 <= i < nodes implies nodes <= (#[trigger] layout.head_ranges()[i]).start
                <= layout.head_ranges()[i].end <= emissions by {
                lemma_prefix_sum_monotone(maximum_heads_by_node@, i, i + 1);
                lemma_prefix_sum_monotone(maximum_heads_by_node@, i + 1, nodes as int);
                lemma_prefix_sum_monotone(maximum_heads_by_node@, 0, i);
            }
            lemma_prefix_sum_monotone(maximum_heads_by_node@, 0, nodes as int);
        }
        Ok(layout)
    }
}

/// Per-degree producer rows and per-channel lookup facts of a channel list whose sources are all
/// LPs and whose layout fits `usize`.
fn degree_tables(nodes: usize, channels: &[DrainProfileChannel], lists: &Vec<Vec<usize>>) -> (tables: (
    Vec<DegreeRow>,
    Vec<ChannelLookup>,
))
    requires
        lists@.len() == nodes,
        forall|s: int| 0 <= s < nodes ==> (#[trigger] lists@[s])@ == spec_source_channels(channels@, s),
        forall|c: int| 0 <= c < channels@.len() ==> (#[trigger] channels@[c]).source < nodes,
        nodes + channels@.len() + 1 <= usize::MAX,
    ensures
        tables.0@ == spec_degree_rows(channels@, nodes as int, channels@.len() + 1int),
        tables.1@.len() == channels@.len(),
        forall|c: int|
            0 <= c < channels@.len() ==> {
                let lookup = #[trigger] tables.1@[c];
                &&& lookup.outbound_degree == spec_out_degree(channels@, channels@[c].source as int)
                &&& lookup.binary_search_iterations == spec_channel_iterations(channels@, c)
                &&& lookup.degree_row < tables.0@.len()
                &&& tables.0@[lookup.degree_row as int].outbound_degree == lookup.outbound_degree
                &&& lookup.binary_search_iterations <= lookup.outbound_degree
            },
        forall|a: int, b: int|
            0 <= a < b < tables.0@.len() ==> (#[trigger] tables.0@[a]).outbound_degree
                < (#[trigger] tables.0@[b]).outbound_degree,
        forall|k: int| 0 <= k < tables.0@.len() ==> (#[trigger] tables.0@[k]).outbound_degree <= channels@.len(),
{
    let channel_count = channels.len();
    // Producer counts by degree; no LP has more channels than there are.
    let mut counts: Vec<usize> = Vec::new();
    let mut d: usize = 0;
    while d <= channel_count
        invariant
            d <= channel_count + 1,
            channel_count + 1 <= usize::MAX,
            counts@.len() == d,
            forall|k: int| 0 <= k < d ==> #[trigger] counts@[k] == 0,
        decreases channel_count + 1 - d,
    {
        counts.push(0);
        d = d + 1;
    }
    let mut source: usize = 0;
    while source < nodes
        invariant
            source <= nodes,
            lists@.len() == nodes,
            channel_count == channels@.len(),
            channels@.len() <= usize::MAX,
            forall|s: int| 0 <= s < nodes ==> (#[trigger] lists@[s])@ == spec_source_channels(channels@, s),
            counts@.len() == channel_count + 1,
            forall|k: int|
                0 <= k <= channel_count ==> #[trigger] counts@[k] == spec_producer_count(
                    channels@,
                    k,
                    source as int,
                ),
        decreases nodes - source,
    {
        proof {
            lemma_outbound_bounded(channels@, source as int, channels@.len() as int);
        }
        let degree = lists[source].len();
        proof {
            lemma_producer_count_monotone(channels@, degree as int, source as int, source as int);
        }
        counts[degree] = counts[degree] + 1;
        proof {
            assert forall|k: int| 0 <= k <= channel_count implies #[trigger] counts@[k]
                == spec_producer_count(channels@, k, source + 1) by {}
        }
        source = source + 1;
    }
    // Rows in ascending degree, and the row of each present degree.
    let mut rows: Vec<DegreeRow> = Vec::new();
    let mut row_of_degree: Vec<usize> = Vec::new();
    let mut d: usize = 0;
    while d <= channel_count
        invariant
            d <= channel_count + 1,
            channel_count + 1 <= usize::MAX,
            nodes <= usize::MAX,
            counts@.len() == channel_count + 1,
            forall|k: int|
                0 <= k <= channel_count ==> #[trigger] counts@[k] == spec_producer_count(
                    channels@,
                    k,
                    nodes as int,
                ),
            rows@ == spec_degree_rows(channels@, nodes as int, d as int),
            row_of_degree@.len() == d,
            forall|k: int|
                0 <= k < d && counts@[k] > 0 ==> #[trigger] row_of_degree@[k] < rows@.len()
                    && rows@[row_of_degree@[k] as int].outbound_degree == k,
        decreases channel_count + 1 - d,
    {
        if counts[d] > 0 {
            row_of_degree.push(rows.len());
            rows.push(DegreeRow { outbound_degree: d, producer_count: counts[d] });
        } else {
            row_of_degree.push(0);
        }
        d = d + 1;
    }
    proof {
        lemma_degree_rows_shape(channels@, nodes as int, channel_count + 1);
    }
    let mut lookups: Vec<ChannelLookup> = Vec::new();
    let mut c: usize = 0;
    while c < channel_count
        invariant
            c <= channel_count == channels@.len(),
            channel_count + 1 <= usize::MAX,
            lists@.len() == nodes,
            forall|s: int| 0 <= s < nodes ==> (#[trigger] lists@[s])@ == spec_source_channels(channels@, s),
            forall|k: int| 0 <= k < channels@.len() ==> (#[trigger] channels@[k]).source < nodes,
            counts@.len() == channel_count + 1,
            forall|k: int|
                0 <= k <= channel_count ==> #[trigger] counts@[k] == spec_producer_count(
                    channels@,
                    k,
                    nodes as int,
                ),
            rows@ == spec_degree_rows(channels@, nodes as int, channel_count + 1),
            row_of_degree@.len() == channel_count + 1,
            forall|k: int|
                0 <= k <= channel_count && counts@[k] > 0 ==> #[trigger] row_of_degree@[k] < rows@.len()
                    && rows@[row_of_degree@[k] as int].outbound_degree == k,
            lookups@.len() == c,
            forall|j: int|
                0 <= j < c ==> {
                    let lookup = #[trigger] lookups@[j];
                    &&& lookup.outbound_degree == spec_out_degree(channels@, channels@[j].source as int)
                    &&& lookup.binary_search_iterations == spec_channel_iterations(channels@, j)
                    &&& lookup.degree_row < rows@.len()
                    &&& rows@[lookup.degree_row as int].outbound_degree == lookup.outbound_degree
                    &&& lookup.binary_search_iterations <= lookup.outbound_degree
                },
        decreases channel_count - c,
    {
        let channel = channels[c];
        let list = &lists[channel.source];
        proof {
            lemma_outbound_bounded(channels@, channel.source as int, channels@.len() as int);
            lemma_producer_of_source(channels@, channel.source as int, nodes as int);
        }
        let degree = list.len();
        let rank = count_below(channels, list, channel.target);
        proof {
            lemma_count_below_bounded(channels@, list@, channel.target, list@.len() as int);
            lemma_probe_count_bounded(0, degree as int, rank as int);
        }
        let iterations = if degree == 1 {
            0
        } else {
            lower_bound_iterations(degree, rank)
        };
        lookups.push(
            ChannelLookup {
                outbound_degree: degree,
                binary_search_iterations: iterations,
                degree_row: row_of_degree[degree],
            },
        );
        c = c + 1;
    }
    (rows, lookups)
}

// ---------------------------------------------------------------------------------------------
// What a readback decodes to.
// ---------------------------------------------------------------------------------------------

/// Sum of the first `upto` values.
pub open spec fn spec_total(values: Seq<int>, upto: int) -> int
    decreases upto,
{
    if upto <= 0 {
        0
    } else {
        spec_total(values, upto - 1) + values[upto - 1]
    }
}

/// Sum of `values[h] * (h + 1)` over the first `upto` bins: each event of bin `h` visited
/// `h + 1` heads.
pub open spec fn spec_weighted_total(values: Seq<int>, upto: int) -> int
    decreases upto,
{
    if upto <= 0 {
        0
    } else {
        spec_weighted_total(values, upto - 1) + values[upto - 1] * upto
    }
}

/// The nonzero bins among the first `upto`, ascending, as `(heads visited, events)` rows.
pub open spec fn spec_visit_entries(values: Seq<int>, upto: int) -> Seq<HeadVisitProfile>
    decreases upto,
{
    if upto <= 0 {
        Seq::empty()
    } else if values[upto - 1] != 0 {
        spec_visit_entries(values, upto - 1).push(
            HeadVisitProfile { heads_visited: upto as usize, selected_events: values[upto - 1] as u128 },
        )
    } else {
        spec_visit_entries(values, upto - 1)
    }
}

/// The first total to overflow while the nonzero bins from `index` on are summed, bin by bin:
/// the selected events, then the bin's head visits, then the head-visit total.
pub open spec fn spec_visit_overflow(values: Seq<int>, index: int) -> Option<OverflowedTotal>
    decreases values.len() - index,
{
    if index < 0 || index >= values.len() {
        None
    } else if values[index] == 0 {
        spec_visit_overflow(values, index + 1)
    } else if spec_total(values, index + 1) > u128::MAX {
        Some(OverflowedTotal::SelectedEvents)
    } else if values[index] * (index + 1) > u128::MAX {
        Some(OverflowedTotal::HeadVisitProduct)
    } else if spec_weighted_total(values, index + 1) > u128::MAX {
        Some(OverflowedTotal::HeadVisitTotal)
    } else {
        spec_visit_overflow(values, index + 1)
    }
}

/// Sum of one field over the first `upto` degree rows.
pub open spec fn spec_rows_total(
    rows: Seq<OutboundDegreeProfile>,
    field: spec_fn(OutboundDegreeProfile) -> u128,
    upto: int,
) -> int
    decreases upto,
{
    if upto <= 0 {
        0
    } else {
        spec_rows_total(rows, field, upto - 1) + field(rows[upto - 1])
    }
}

pub open spec fn spec_remote_field() -> spec_fn(OutboundDegreeProfile) -> u128 {
    |row: OutboundDegreeProfile| row.remote_emissions
}

pub open spec fn spec_lookups_field() -> spec_fn(OutboundDegreeProfile) -> u128 {
    |row: OutboundDegreeProfile| row.binary_search_lookups
}

pub open spec fn spec_iterations_field() -> spec_fn(OutboundDegreeProfile) -> u128 {
    |row: OutboundDegreeProfile| row.binary_search_iterations
}

impl DrainProfileLayout {
    /// Bins in LP `node`'s histogram row.
    pub open spec fn row_width(&self, node: int) -> int {
        self.head_ranges()[node].end - self.head_ranges()[node].start
    }

    /// Widest histogram row among the first `upto` LPs.
    pub open spec fn max_heads(&self, upto: int) -> int
        decreases upto,
    {
        if upto <= 0 {
            0
        } else {
            spec_max_usize(self.max_heads(upto - 1), self.row_width(upto - 1))
        }
    }

    /// Events of bin `bin` over the first `upto` LPs' rows.
    pub open spec fn bin_total(&self, words: Seq<u64>, bin: int, upto: int) -> int
        decreases upto,
    {
        if upto <= 0 {
            0
        } else {
            self.bin_total(words, bin, upto - 1) + if bin < self.row_width(upto - 1) {
                words[self.head_ranges()[upto - 1].start + bin] as int
            } else {
                0int
            }
        }
    }

    /// Run-wide head-count histogram: bin `h` counts the events selected after `h + 1` heads.
    pub open spec fn bins(&self, words: Seq<u64>) -> Seq<int> {
        Seq::new(
            self.max_heads(self.node_count()) as nat,
            |bin: int| self.bin_total(words, bin, self.node_count()),
        )
    }

    /// Emission counter of channel `channel`.
    pub open spec fn emissions(&self, words: Seq<u64>, channel: int) -> int {
        words[self.spec_channel_emissions_offset() + channel] as int
    }

    /// Emissions over the first `upto` channels whose source has outbound degree `degree`.
    pub open spec fn degree_emissions(&self, words: Seq<u64>, degree: int, upto: int) -> int
        decreases upto,
    {
        if upto <= 0 {
            0
        } else {
            self.degree_emissions(words, degree, upto - 1) + if self.channel_lookups()[upto
                - 1].outbound_degree == degree {
                self.emissions(words, upto - 1)
            } else {
                0int
            }
        }
    }

    /// Binary-search probes over the first `upto` channels of outbound degree `degree`: each
    /// emission costs its channel's probe count.
    pub open spec fn degree_iterations(&self, words: Seq<u64>, degree: int, upto: int) -> int
        decreases upto,
    {
        if upto <= 0 {
            0
        } else {
            self.degree_iterations(words, degree, upto - 1) + if self.channel_lookups()[upto
                - 1].outbound_degree == degree {
                self.emissions(words, upto - 1) * self.channel_lookups()[upto
                    - 1].binary_search_iterations
            } else {
                0int
            }
        }
    }

    /// Lookups over the first `upto` channels of degree `degree` whose search takes `iterations`
    /// probes.
    pub open spec fn key_lookups(&self, words: Seq<u64>, degree: int, iterations: int, upto: int) -> int
        decreases upto,
    {
        if upto <= 0 {
            0
        } else {
            self.key_lookups(words, degree, iterations, upto - 1) + if self.channel_lookups()[upto
                - 1].outbound_degree == degree && self.channel_lookups()[upto
                - 1].binary_search_iterations == iterations {
                self.emissions(words, upto - 1)
            } else {
                0int
            }
        }
    }

    pub open spec fn channel_count(&self) -> int {
        self.channel_lookups().len() as int
    }

    /// Decoded row of degree row `k`: lookups and probes are counted only where a search runs.
    pub open spec fn degree_profile(&self, words: Seq<u64>, k: int) -> OutboundDegreeProfile {
        let row = self.degree_rows()[k];
        let degree = row.outbound_degree as int;
        let emissions = self.degree_emissions(words, degree, self.channel_count());
        OutboundDegreeProfile {
            outbound_degree: row.outbound_degree,
            producer_count: row.producer_count,
            remote_emissions: emissions as u128,
            binary_search_lookups: if degree >= 2 {
                emissions as u128
            } else {
                0
            },
            binary_search_iterations: if degree >= 2 {
                self.degree_iterations(words, degree, self.channel_count()) as u128
            } else {
                0
            },
        }
    }

    pub open spec fn degree_profiles(&self, words: Seq<u64>) -> Seq<OutboundDegreeProfile> {
        Seq::new(self.degree_rows().len(), |k: int| self.degree_profile(words, k))
    }

    /// Nonzero `(degree, probes)` entries of degree row `k` for probe counts below `upto`.
    pub open spec fn row_lookup_entries(&self, words: Seq<u64>, k: int, upto: int) -> Seq<
        LookupIterationProfile,
    >
        decreases upto,
    {
        let degree = self.degree_rows()[k].outbound_degree;
        let lookups = self.key_lookups(words, degree as int, upto - 1, self.channel_count());
        if upto <= 0 {
            Seq::empty()
        } else if lookups != 0 {
            self.row_lookup_entries(words, k, upto - 1).push(
                LookupIterationProfile {
                    outbound_degree: degree,
                    binary_search_iterations: (upto - 1) as usize,
                    lookups: lookups as u128,
                },
            )
        } else {
            self.row_lookup_entries(words, k, upto - 1)
        }
    }

    /// Nonzero lookup entries of the first `upto` degree rows, ascending by degree then probes;
    /// a search over `d` targets takes at most `d` probes.
    pub open spec fn lookup_histogram(&self, words: Seq<u64>, upto: int) -> Seq<LookupIterationProfile>
        decreases upto,
    {
        if upto <= 0 {
            Seq::empty()
        } else {
            let degree = self.degree_rows()[upto - 1].outbound_degree;
            self.lookup_histogram(words, upto - 1) + if degree >= 2 {
                self.row_lookup_entries(words, upto - 1, degree + 1)
            } else {
                Seq::empty()
            }
        }
    }

    /// First LP at or after `node` whose invariant flag is raised, or the LP count.
    pub open spec fn first_flag(&self, words: Seq<u64>, node: int) -> int
        decreases self.node_count() - node,
    {
        if node >= self.node_count() {
            self.node_count()
        } else if words[node] != 0 {
            node
        } else {
            self.first_flag(words, node + 1)
        }
    }

    /// The first total to overflow while the channels from `channel` on are added into their
    /// degree rows: the row's emissions, then (for a searched degree) its lookups, which count
    /// the same emissions, the channel's probe product, the row's probes, and the lookup
    /// histogram entry.
    pub open spec fn channel_overflow(&self, words: Seq<u64>, channel: int) -> Option<OverflowedTotal>
        decreases self.channel_count() - channel,
    {
        if channel < 0 || channel >= self.channel_count() {
            None
        } else {
            let lookup = self.channel_lookups()[channel];
            let degree = lookup.outbound_degree as int;
            let probes = lookup.binary_search_iterations as int;
            if self.degree_emissions(words, degree, channel + 1) > u128::MAX {
                Some(OverflowedTotal::RemoteEmissions)
            } else if degree >= 2 && self.degree_emissions(words, degree, channel + 1) > u128::MAX {
                Some(OverflowedTotal::Lookups)
            } else if degree >= 2 && self.emissions(words, channel) * probes > u128::MAX {
                Some(OverflowedTotal::IterationProduct)
            } else if degree >= 2 && self.degree_iterations(words, degree, channel + 1) > u128::MAX {
                Some(OverflowedTotal::IterationTotal)
            } else if degree >= 2 && self.key_lookups(words, degree, probes, channel + 1)
                > u128::MAX {
                Some(OverflowedTotal::LookupHistogram)
            } else {
                self.channel_overflow(words, channel + 1)
            }
        }
    }

    /// The first decoded total that does not fit `u128`, in decode order: the head-count bins,
    /// the head-visit sums, the per-channel row sums, then the run-wide emission, lookup and
    /// probe totals.
    pub open spec fn overflow_kind(&self, words: Seq<u64>) -> Option<OverflowedTotal> {
        let bins = self.bins(words);
        let profiles = self.degree_profiles(words);
        if exists|bin: int| 0 <= bin < bins.len() && #[trigger] bins[bin] > u128::MAX {
            Some(OverflowedTotal::HeadHistogram)
        } else if spec_visit_overflow(bins, 0) is Some {
            spec_visit_overflow(bins, 0)
        } else if self.channel_overflow(words, 0) is Some {
            self.channel_overflow(words, 0)
        } else if spec_rows_total(profiles, spec_remote_field(), profiles.len() as int) > u128::MAX
            || spec_rows_total(profiles, spec_lookups_field(), profiles.len() as int) > u128::MAX
            || spec_rows_total(profiles, spec_iterations_field(), profiles.len() as int)
            > u128::MAX {
            Some(OverflowedTotal::ProfileTotal)
        } else {
            None
        }
    }

    /// `profile` is the exact decoding of `words`.
    pub open spec fn decodes_to(&self, words: Seq<u64>, profile: DrainProfile) -> bool {
        let bins = self.bins(words);
        let profiles = self.degree_profiles(words);
        &&& profile.selected_events == spec_total(bins, bins.len() as int)
        &&& profile.head_visits == spec_weighted_total(bins, bins.len() as int)
        &&& profile.head_visit_histogram@ == spec_visit_entries(bins, bins.len() as int)
        &&& profile.outbound_degrees@ == profiles
        &&& profile.remote_emissions == spec_rows_total(profiles, spec_remote_field(), profiles.len() as int)
        &&& profile.binary_search_lookups == spec_rows_total(
            profiles,
            spec_lookups_field(),
            profiles.len() as int,
        )
        &&& profile.binary_search_iterations == spec_rows_total(
            profiles,
            spec_iterations_field(),
            profiles.len() as int,
        )
        &&& profile.lookup_iteration_histogram@ == self.lookup_histogram(
            words,
            self.degree_rows().len() as int,
        )
    }
}

impl DrainProfileLayout {
    proof fn lemma_first_flag_bounds(&self, words: Seq<u64>, node: int)
        requires
            0 <= node <= self.node_count(),
        ensures
            node <= self.first_flag(words, node) <= self.node_count(),
        decreases self.node_count() - node,
    {
        if node < self.node_count() && words[node] == 0 {
            self.lemma_first_flag_bounds(words, node + 1);
        }
    }

    proof fn lemma_max_heads(&self, upto: int)
        requires
            self.wf(),
            0 <= upto <= self.node_count(),
        ensures
            0 <= self.max_heads(upto) <= self.spec_channel_emissions_offset(),
            forall|i: int| 0 <= i < upto ==> self.row_width(i) <= self.max_heads(upto),
        decreases upto,
    {
        if upto > 0 {
            self.lemma_max_heads(upto - 1);
            assert(self.head_ranges()[upto - 1].start <= self.head_ranges()[upto - 1].end);
        }
    }

    proof fn lemma_bin_total_monotone(&self, words: Seq<u64>, bin: int, a: int, b: int)
        requires
            0 <= a <= b,
        ensures
            0 <= self.bin_total(words, bin, a) <= self.bin_total(words, bin, b),
        decreases b,
    {
        if b > 0 {
            if a == b {
                self.lemma_bin_total_monotone(words, bin, a - 1, b - 1);
            } else {
                self.lemma_bin_total_monotone(words, bin, a, b - 1);
            }
        }
    }

    /// First LP whose invariant flag is raised, or the LP count.
    fn first_raised_flag(&self, words: &[u64]) -> (node: usize)
        requires
            self.wf(),
            words@.len() == self.spec_words(),
        ensures
            node == self.first_flag(words@, 0),
    {
        let nodes = self.head_ranges.len();
        let mut node: usize = 0;
        while node < nodes
            invariant
                node <= nodes == self.node_count(),
                self.wf(),
                words@.len() == self.spec_words(),
                self.first_flag(words@, 0) == self.first_flag(words@, node as int),
            decreases nodes - node,
        {
            if words[node] != 0 {
                return node;
            }
            node = node + 1;
        }
        node
    }

    /// The run-wide head-count histogram, or `None` when a bin does not fit `u128`.
    fn bin_totals(&self, words: &[u64]) -> (bins: Option<Vec<u128>>)
        requires
            self.wf(),
            words@.len() == self.spec_words(),
        ensures
            bins is None <==> exists|bin: int|
                0 <= bin < self.bins(words@).len() && #[trigger] self.bins(words@)[bin] > u128::MAX,
            bins matches Some(bins) ==> bins@.len() == self.bins(words@).len() && forall|bin: int|
                0 <= bin < bins@.len() ==> #[trigger] bins@[bin] == self.bins(words@)[bin],
    {
        let nodes = self.head_ranges.len();
        let mut max_heads: usize = 0;
        let mut i: usize = 0;
        while i < nodes
            invariant
                i <= nodes == self.node_count(),
                self.wf(),
                max_heads == self.max_heads(i as int),
            decreases nodes - i,
        {
            proof {
                self.lemma_max_heads(i + 1);
            }
            let range = self.head_ranges[i];
            let width = range.end - range.start;
            if width > max_heads {
                max_heads = width;
            }
            i = i + 1;
        }
        proof {
            self.lemma_max_heads(nodes as int);
        }
        let ghost all = self.bins(words@);
        let mut bins: Vec<u128> = Vec::new();
        while bins.len() < max_heads
            invariant
                bins@.len() <= max_heads,
                forall|h: int| 0 <= h < bins@.len() ==> #[trigger] bins@[h] == 0,
            decreases max_heads - bins@.len(),
        {
            bins.push(0);
        }
        proof {
            assert forall|h: int| 0 <= h < max_heads implies self.bin_total(words@, h, 0) <= #[trigger] all[h] by {
                self.lemma_bin_total_monotone(words@, h, 0, nodes as int);
            }
        }
        let mut i: usize = 0;
        while i < nodes
            invariant
                i <= nodes == self.node_count(),
                self.wf(),
                words@.len() == self.spec_words(),
                max_heads == self.max_heads(nodes as int),
                all == self.bins(words@),
                bins@.len() == max_heads,
                forall|h: int| 0 <= h < max_heads ==> #[trigger] bins@[h] == self.bin_total(words@, h, i as int),
                forall|h: int| 0 <= h < max_heads ==> self.bin_total(words@, h, i as int) <= #[trigger] all[h],
            decreases nodes - i,
        {
            let range = self.head_ranges[i];
            let width = range.end - range.start;
            proof {
                self.lemma_max_heads(nodes as int);
                assert(self.row_width(i as int) <= max_heads);
                assert(nodes <= range.start <= range.end <= self.spec_channel_emissions_offset());
            }
            let mut j: usize = 0;
            while j < width
                invariant
                    i < nodes == self.node_count(),
                    self.wf(),
                    words@.len() == self.spec_words(),
                    range == self.head_ranges()[i as int],
                    width == self.row_width(i as int),
                    width <= max_heads,
                    range.end <= self.spec_channel_emissions_offset(),
                    j <= width,
                    max_heads == self.max_heads(nodes as int),
                    all == self.bins(words@),
                    bins@.len() == max_heads,
                    forall|h: int|
                        0 <= h < max_heads ==> #[trigger] bins@[h] == if h < j {
                            self.bin_total(words@, h, i + 1)
                        } else {
                            self.bin_total(words@, h, i as int)
                        },
                decreases width - j,
            {
                let count = words[range.start + j] as u128;
                match bins[j].checked_add(count) {
                    Some(total) => {
                        bins.set(j, total);
                    },
                    None => {
                        proof {
                            self.lemma_bin_total_monotone(words@, j as int, i + 1, nodes as int);
                            assert(all[j as int] > u128::MAX);
                        }
                        return None;
                    },
                }
                j = j + 1;
            }
            proof {
                assert forall|h: int| 0 <= h < max_heads implies self.bin_total(words@, h, i + 1)
                    <= #[trigger] all[h] by {
                    self.lemma_bin_total_monotone(words@, h, i + 1, nodes as int);
                }
            }
            i = i + 1;
        }
        proof {
            assert forall|bin: int| 0 <= bin < all.len() implies #[trigger] all[bin] <= u128::MAX by {
                assert(bins@[bin] == all[bin]);
            }
        }
        Some(bins)
    }
}

proof fn lemma_totals_monotone(values: Seq<int>, a: int, b: int)
    requires
        0 <= a <= b <= values.len(),
        forall|h: int| 0 <= h < values.len() ==> #[trigger] values[h] >= 0,
    ensures
        0 <= spec_total(values, a) <= spec_total(values, b),
        0 <= spec_weighted_total(values, a) <= spec_weighted_total(values, b),
    decreases b,
{
    if b > 0 {
        if a == b {
            lemma_totals_monotone(values, a - 1, b - 1);
        } else {
            lemma_totals_monotone(values, a, b - 1);
        }
        assert(values[b - 1] * b >= 0) by (nonlinear_arith)
            requires
                values[b - 1] >= 0,
                b >= 0,
        ;
    }
}

/// Selected events, head visits and the nonzero `(heads visited, events)` rows of a histogram,
/// or the first total that does not fit `u128`.
fn head_visit_summary(bins: &Vec<u128>, Ghost(values): Ghost<Seq<int>>) -> (summary: Result<
    (u128, u128, Vec<HeadVisitProfile>),
    OverflowedTotal,
>)
    requires
        bins@.len() == values.len(),
        forall|h: int| 0 <= h < values.len() ==> #[trigger] values[h] == bins@[h],
    ensures
        summary is Err <==> spec_total(values, values.len() as int) > u128::MAX || spec_weighted_total(
            values,
            values.len() as int,
        ) > u128::MAX,
        summary matches Err(total) ==> spec_visit_overflow(values, 0) == Some(total),
        summary is Ok ==> spec_visit_overflow(values, 0) is None,
        summary matches Ok((selected, visits, histogram)) ==> selected == spec_total(
            values,
            values.len() as int,
        ) && visits == spec_weighted_total(values, values.len() as int) && histogram@
            == spec_visit_entries(values, values.len() as int),
{
    let len = bins.len();
    let mut selected: u128 = 0;
    let mut visits: u128 = 0;
    let mut histogram: Vec<HeadVisitProfile> = Vec::new();
    let mut index: usize = 0;
    while index < len
        invariant
            index <= len == bins@.len() == values.len(),
            forall|h: int| 0 <= h < values.len() ==> #[trigger] values[h] == bins@[h],
            selected == spec_total(values, index as int),
            visits == spec_weighted_total(values, index as int),
            histogram@ == spec_visit_entries(values, index as int),
            spec_visit_overflow(values, 0) == spec_visit_overflow(values, index as int),
        decreases len - index,
    {
        proof {
            assert forall|h: int| 0 <= h < values.len() implies #[trigger] values[h] >= 0 by {
                assert(values[h] == bins@[h]);
            }
            lemma_totals_monotone(values, index + 1, len as int);
        }
        let count = bins[index];
        let heads = index + 1;
        if count != 0 {
            selected = match selected.checked_add(count) {
                Some(total) => total,
                None => {
                    return Err(OverflowedTotal::SelectedEvents);
                },
            };
            let product = match count.checked_mul(heads as u128) {
                Some(product) => product,
                None => {
                    proof {
                        assert(spec_weighted_total(values, index + 1) == visits + count * heads);
                    }
                    return Err(OverflowedTotal::HeadVisitProduct);
                },
            };
            visits = match visits.checked_add(product) {
                Some(total) => total,
                None => {
                    return Err(OverflowedTotal::HeadVisitTotal);
                },
            };
            histogram.push(HeadVisitProfile { heads_visited: heads, selected_events: count });
        }
        index = index + 1;
    }
    Ok((selected, visits, histogram))
}

impl DrainProfileLayout {
    proof fn lemma_channel_sums_monotone(&self, words: Seq<u64>, degree: int, iterations: int, a: int, b: int)
        requires
            0 <= a <= b,
        ensures
            0 <= self.degree_emissions(words, degree, a) <= self.degree_emissions(words, degree, b),
            0 <= self.degree_iterations(words, degree, a) <= self.degree_iterations(words, degree, b),
            0 <= self.key_lookups(words, degree, iterations, a) <= self.key_lookups(
                words,
                degree,
                iterations,
                b,
            ),
        decreases b,
    {
        if b > 0 {
            if a == b {
                self.lemma_channel_sums_monotone(words, degree, iterations, a - 1, b - 1);
            } else {
                self.lemma_channel_sums_monotone(words, degree, iterations, a, b - 1);
            }
            let e = self.emissions(words, b - 1);
            let t = self.channel_lookups()[b - 1].binary_search_iterations;
            assert(e * t >= 0) by (nonlinear_arith)
                requires
                    e >= 0,
                    t >= 0,
            ;
        }
    }

    /// Per degree row: emissions, probes (rows of degree two or more) and lookups by probe count
    /// (rows of degree two or more, probe counts up to the degree); `None` when one of them does
    /// not fit `u128`.
    fn degree_accumulators(&self, words: &[u64]) -> (result: Result<
        (Vec<u128>, Vec<u128>, Vec<Vec<u128>>),
        OverflowedTotal,
    >)
        requires
            self.wf(),
            words@.len() == self.spec_words(),
        ensures
            result matches Err(total) ==> self.channel_overflow(words@, 0) == Some(total),
            result is Ok ==> self.channel_overflow(words@, 0) is None,
            result is Err <==> (exists|k: int|
                0 <= k < self.degree_rows().len() && self.degree_emissions(
                    words@,
                    (#[trigger] self.degree_rows()[k]).outbound_degree as int,
                    self.channel_count(),
                ) > u128::MAX) || (exists|k: int|
                0 <= k < self.degree_rows().len() && (#[trigger] self.degree_rows()[k]).outbound_degree
                    >= 2 && self.degree_iterations(
                    words@,
                    self.degree_rows()[k].outbound_degree as int,
                    self.channel_count(),
                ) > u128::MAX) || (exists|k: int, t: int|
                0 <= k < self.degree_rows().len() && (#[trigger] self.degree_rows()[k]).outbound_degree
                    >= 2 && 0 <= t <= self.degree_rows()[k].outbound_degree && #[trigger] self.key_lookups(
                    words@,
                    self.degree_rows()[k].outbound_degree as int,
                    t,
                    self.channel_count(),
                ) > u128::MAX),
            result matches Ok((emissions, iterations, keys)) ==> {
                &&& emissions@.len() == self.degree_rows().len()
                &&& iterations@.len() == self.degree_rows().len()
                &&& keys@.len() == self.degree_rows().len()
                &&& forall|k: int|
                    0 <= k < self.degree_rows().len() ==> {
                        let degree = (#[trigger] self.degree_rows()[k]).outbound_degree as int;
                        &&& emissions@[k] == self.degree_emissions(words@, degree, self.channel_count())
                        &&& iterations@[k] == if degree >= 2 {
                            self.degree_iterations(words@, degree, self.channel_count())
                        } else {
                            0
                        }
                        &&& keys@[k]@.len() == degree + 1
                        &&& forall|t: int|
                            0 <= t <= degree ==> #[trigger] keys@[k]@[t] == if degree >= 2 {
                                self.key_lookups(words@, degree, t, self.channel_count())
                            } else {
                                0
                            }
                    }
            },
    {
        let rows = self.degree_rows.len();
        let channels = self.channel_lookups.len();
        let ghost row_degrees = self.degree_rows();
        let mut emissions: Vec<u128> = Vec::new();
        let mut iterations: Vec<u128> = Vec::new();
        let mut keys: Vec<Vec<u128>> = Vec::new();
        let mut k: usize = 0;
        while k < rows
            invariant
                k <= rows == row_degrees.len(),
                row_degrees == self.degree_rows(),
                self.wf(),
                channels == self.channel_count(),
                emissions@.len() == k,
                iterations@.len() == k,
                keys@.len() == k,
                forall|r: int| 0 <= r < k ==> #[trigger] emissions@[r] == 0,
                forall|r: int| 0 <= r < k ==> #[trigger] iterations@[r] == 0,
                forall|r: int|
                    0 <= r < k ==> (#[trigger] keys@[r])@.len() == row_degrees[r].outbound_degree + 1
                        && forall|t: int| 0 <= t < keys@[r]@.len() ==> #[trigger] keys@[r]@[t] == 0,
            decreases rows - k,
        {
            let degree = self.degree_rows[k].outbound_degree;
            let mut bins: Vec<u128> = Vec::new();
            while bins.len() <= degree
                invariant
                    bins@.len() <= degree + 1,
                    degree <= channels < usize::MAX,
                    forall|t: int| 0 <= t < bins@.len() ==> #[trigger] bins@[t] == 0,
                decreases degree + 1 - bins@.len(),
            {
                bins.push(0);
            }
            emissions.push(0);
            iterations.push(0);
            keys.push(bins);
            k = k + 1;
        }
        let mut c: usize = 0;
        while c < channels
            invariant
                c <= channels == self.channel_count(),
                self.wf(),
                words@.len() == self.spec_words(),
                rows == row_degrees.len(),
                row_degrees == self.degree_rows(),
                emissions@.len() == rows,
                iterations@.len() == rows,
                keys@.len() == rows,
                self.channel_overflow(words@, 0) == self.channel_overflow(words@, c as int),
                forall|r: int|
                    0 <= r < rows ==> #[trigger] emissions@[r] == self.degree_emissions(
                        words@,
                        row_degrees[r].outbound_degree as int,
                        c as int,
                    ),
                forall|r: int|
                    0 <= r < rows ==> #[trigger] iterations@[r] == if row_degrees[r].outbound_degree >= 2 {
                        self.degree_iterations(words@, row_degrees[r].outbound_degree as int, c as int)
                    } else {
                        0
                    },
                forall|r: int|
                    0 <= r < rows ==> (#[trigger] keys@[r])@.len() == row_degrees[r].outbound_degree + 1,
                forall|r: int, t: int|
                    0 <= r < rows && 0 <= t <= row_degrees[r].outbound_degree ==> #[trigger] keys@[r]@[t]
                        == if row_degrees[r].outbound_degree >= 2 {
                        self.key_lookups(words@, row_degrees[r].outbound_degree as int, t, c as int)
                    } else {
                        0
                    },
            decreases channels - c,
        {
            let lookup = self.channel_lookups[c];
            let row = lookup.degree_row;
            let degree = lookup.outbound_degree;
            let probes = lookup.binary_search_iterations;
            proof {
                assert(self.channel_lookups()[c as int] == lookup);
                assert(row < rows && row_degrees[row as int].outbound_degree == degree);
                assert(probes <= degree);
                assert forall|r: int| 0 <= r < rows && r != row implies (#[trigger] row_degrees[r]).outbound_degree
                    != degree by {
                    if r < row {
                        assert(row_degrees[r].outbound_degree < row_degrees[row as int].outbound_degree);
                    } else {
                        assert(row_degrees[row as int].outbound_degree < row_degrees[r].outbound_degree);
                    }
                }
                self.lemma_channel_sums_monotone(words@, degree as int, probes as int, c + 1, channels as int);
            }
            let emitted = words[self.channel_emissions_offset + c] as u128;
            let ghost before_keys = keys@;
            proof {
                assert(self.emissions(words@, c as int) == emitted);
                assert(self.degree_emissions(words@, degree as int, c + 1) == emissions@[row as int]
                    + emitted);
            }
            match emissions[row].checked_add(emitted) {
                Some(total) => {
                    emissions.set(row, total);
                },
                None => {
                    proof {
                        assert(row_degrees[row as int].outbound_degree == degree);
                    }
                    return Err(OverflowedTotal::RemoteEmissions);
                },
            }
            if degree >= 2 {
                proof {
                    assert((emitted as int) * (probes as int) <= u128::MAX) by (nonlinear_arith)
                        requires
                            emitted <= u64::MAX,
                            probes <= usize::MAX,
                            usize::MAX <= u64::MAX,
                    ;
                }
                let cost = emitted * (probes as u128);
                proof {
                    assert(self.degree_iterations(words@, degree as int, c + 1) == iterations@[row as int]
                        + cost);
                    assert(self.key_lookups(words@, degree as int, probes as int, c + 1)
                        == keys@[row as int]@[probes as int] + emitted);
                }
                match iterations[row].checked_add(cost) {
                    Some(total) => {
                        iterations.set(row, total);
                    },
                    None => {
                        return Err(OverflowedTotal::IterationTotal);
                    },
                }
                match keys[row][probes].checked_add(emitted) {
                    Some(total) => {
                        keys[row].set(probes, total);
                    },
                    None => {
                        proof {
                            assert(0 <= probes as int <= row_degrees[row as int].outbound_degree);
                        }
                        return Err(OverflowedTotal::LookupHistogram);
                    },
                }
            }
            proof {
                assert forall|r: int, t: int|
                    0 <= r < rows && 0 <= t <= row_degrees[r].outbound_degree implies #[trigger] keys@[r]@[t]
                        == if row_degrees[r].outbound_degree >= 2 {
                        self.key_lookups(words@, row_degrees[r].outbound_degree as int, t, c + 1)
                    } else {
                        0
                    } by {
                    if r != row {
                        assert(keys@[r] == before_keys[r]);
                    }
                }
            }
            c = c + 1;
        }
        proof {
            assert forall|k: int| 0 <= k < rows implies self.degree_emissions(
                words@,
                (#[trigger] row_degrees[k]).outbound_degree as int,
                channels as int,
            ) <= u128::MAX by {
                assert(emissions@[k] == self.degree_emissions(words@, row_degrees[k].outbound_degree as int, channels as int));
            }
            assert forall|k: int| 0 <= k < rows && (#[trigger] row_degrees[k]).outbound_degree >= 2 implies self.degree_iterations(
                words@,
                row_degrees[k].outbound_degree as int,
                channels as int,
            ) <= u128::MAX by {
                assert(iterations@[k] == self.degree_iterations(words@, row_degrees[k].outbound_degree as int, channels as int));
            }
            assert forall|k: int, t: int|
                0 <= k < rows && (#[trigger] row_degrees[k]).outbound_degree >= 2 && 0 <= t
                    <= row_degrees[k].outbound_degree implies #[trigger] self.key_lookups(
                words@,
                row_degrees[k].outbound_degree as int,
                t,
                channels as int,
            ) <= u128::MAX by {
                assert(keys@[k]@[t] == self.key_lookups(words@, row_degrees[k].outbound_degree as int, t, channels as int));
            }
        }
        Ok((emissions, iterations, keys))
    }
}

proof fn lemma_rows_total_monotone(
    rows: Seq<OutboundDegreeProfile>,
    field: spec_fn(OutboundDegreeProfile) -> u128,
    a: int,
    b: int,
)
    requires
        0 <= a <= b,
    ensures
        0 <= spec_rows_total(rows, field, a) <= spec_rows_total(rows, field, b),
    decreases b,
{
    if b > 0 {
        if a == b {
            lemma_rows_total_monotone(rows, field, a - 1, b - 1);
        } else {
            lemma_rows_total_monotone(rows, field, a, b - 1);
        }
    }
}

/// Sum of one field over the degree rows, or a refusal naming the run-wide total when it does
/// not fit `u128`.
fn checked_row_sum(
    rows: &Vec<OutboundDegreeProfile>,
    value: impl Fn(&OutboundDegreeProfile) -> u128,
    Ghost(field): Ghost<spec_fn(OutboundDegreeProfile) -> u128>,
) -> (total: Result<u128, DrainProfileError>)
    requires
        forall|row: &OutboundDegreeProfile| #[trigger] value.requires((row,)),
        forall|row: &OutboundDegreeProfile, v: u128| #[trigger] value.ensures((row,), v) ==> v == field(*row),
    ensures
        total is Err <==> spec_rows_total(rows@, field, rows@.len() as int) > u128::MAX,
        total matches Ok(sum) ==> sum == spec_rows_total(rows@, field, rows@.len() as int),
        total matches Err(error) ==> error == DrainProfileError::CounterOverflow(
            OverflowedTotal::ProfileTotal,
        ),
{
    let mut sum: u128 = 0;
    let mut index: usize = 0;
    while index < rows.len()
        invariant
            index <= rows@.len(),
            forall|row: &OutboundDegreeProfile| #[trigger] value.requires((row,)),
            forall|row: &OutboundDegreeProfile, v: u128| #[trigger] value.ensures((row,), v) ==> v == field(*row),
            sum == spec_rows_total(rows@, field, index as int),
        decreases rows@.len() - index,
    {
        let v = value(&rows[index]);
        match sum.checked_add(v) {
            Some(next) => {
                sum = next;
            },
            None => {
                proof {
                    lemma_rows_total_monotone(rows@, field, index + 1, rows@.len() as int);
                }
                return Err(DrainProfileError::CounterOverflow(OverflowedTotal::ProfileTotal));
            },
        }
        index = index + 1;
    }
    Ok(sum)
}

impl DrainProfileLayout {
    pub fn words(&self) -> (words: usize)
        ensures
            words == self.spec_words(),
    {
        self.words
    }

    pub fn head_histogram_offset(&self) -> (offset: usize)
        ensures
            offset == self.spec_head_histogram_offset(),
    {
        self.head_histogram_offset
    }

    pub fn channel_emissions_offset(&self) -> (offset: usize)
        ensures
            offset == self.spec_channel_emissions_offset(),
    {
        self.channel_emissions_offset
    }

    /// An all-zero readback buffer of the layout's size.
    pub fn zeroed_words(&self) -> (words: Vec<u64>)
        ensures
            words@.len() == self.spec_words(),
            forall|i: int| 0 <= i < words@.len() ==> #[trigger] words@[i] == 0,
    {
        let mut words: Vec<u64> = Vec::new();
        while words.len() < self.words
            invariant
                words@.len() <= self.spec_words(),
                forall|i: int| 0 <= i < words@.len() ==> #[trigger] words@[i] == 0,
            decreases self.spec_words() - words@.len(),
        {
            words.push(0);
        }
        words
    }

    /// Decoded rows of the degree table, from exact per-row totals.
    fn degree_profile_rows(
        &self,
        emissions: &Vec<u128>,
        iterations: &Vec<u128>,
        Ghost(words): Ghost<Seq<u64>>,
    ) -> (rows: Vec<OutboundDegreeProfile>)
        requires
            emissions@.len() == self.degree_rows().len(),
            iterations@.len() == self.degree_rows().len(),
            forall|k: int|
                0 <= k < self.degree_rows().len() ==> {
                    let degree = (#[trigger] self.degree_rows()[k]).outbound_degree as int;
                    &&& emissions@[k] == self.degree_emissions(words, degree, self.channel_count())
                    &&& iterations@[k] == if degree >= 2 {
                        self.degree_iterations(words, degree, self.channel_count())
                    } else {
                        0
                    }
                },
        ensures
            rows@ == self.degree_profiles(words),
    {
        let mut rows: Vec<OutboundDegreeProfile> = Vec::new();
        let mut k: usize = 0;
        while k < self.degree_rows.len()
            invariant
                k <= self.degree_rows().len(),
                emissions@.len() == self.degree_rows().len(),
                iterations@.len() == self.degree_rows().len(),
                forall|r: int|
                    0 <= r < self.degree_rows().len() ==> {
                        let degree = (#[trigger] self.degree_rows()[r]).outbound_degree as int;
                        &&& emissions@[r] == self.degree_emissions(words, degree, self.channel_count())
                        &&& iterations@[r] == if degree >= 2 {
                            self.degree_iterations(words, degree, self.channel_count())
                        } else {
                            0
                        }
                    },
                rows@ == self.degree_profiles(words).take(k as int),
            decreases self.degree_rows().len() - k,
        {
            let row = self.degree_rows[k];
            let degree = row.outbound_degree;
            let emitted = emissions[k];
            let lookups = if degree >= 2 {
                emitted
            } else {
                0
            };
            let probes = if degree >= 2 {
                iterations[k]
            } else {
                0
            };
            rows.push(
                OutboundDegreeProfile {
                    outbound_degree: degree,
                    producer_count: row.producer_count,
                    remote_emissions: emitted,
                    binary_search_lookups: lookups,
                    binary_search_iterations: probes,
                },
            );
            proof {
                assert(self.degree_rows()[k as int] == row);
                assert(rows@ =~= self.degree_profiles(words).take(k + 1));
            }
            k = k + 1;
        }
        proof {
            assert(rows@ =~= self.degree_profiles(words));
        }
        rows
    }

    /// Nonzero `(degree, probes)` lookup entries, ascending, from exact per-key totals.
    fn lookup_entries(&self, keys: &Vec<Vec<u128>>, Ghost(words): Ghost<Seq<u64>>) -> (entries: Vec<
        LookupIterationProfile,
    >)
        requires
            self.wf(),
            keys@.len() == self.degree_rows().len(),
            forall|k: int|
                0 <= k < self.degree_rows().len() ==> {
                    let degree = (#[trigger] self.degree_rows()[k]).outbound_degree as int;
                    &&& keys@[k]@.len() == degree + 1
                    &&& forall|t: int|
                        0 <= t <= degree ==> #[trigger] keys@[k]@[t] == if degree >= 2 {
                            self.key_lookups(words, degree, t, self.channel_count())
                        } else {
                            0
                        }
                },
        ensures
            entries@ == self.lookup_histogram(words, self.degree_rows().len() as int),
    {
        let mut entries: Vec<LookupIterationProfile> = Vec::new();
        let mut k: usize = 0;
        while k < self.degree_rows.len()
            invariant
                k <= self.degree_rows().len(),
                self.wf(),
                keys@.len() == self.degree_rows().len(),
                forall|r: int|
                    0 <= r < self.degree_rows().len() ==> {
                        let degree = (#[trigger] self.degree_rows()[r]).outbound_degree as int;
                        &&& keys@[r]@.len() == degree + 1
                        &&& forall|t: int|
                            0 <= t <= degree ==> #[trigger] keys@[r]@[t] == if degree >= 2 {
                                self.key_lookups(words, degree, t, self.channel_count())
                            } else {
                                0
                            }
                    },
                entries@ == self.lookup_histogram(words, k as int),
            decreases self.degree_rows().len() - k,
        {
            let degree = self.degree_rows[k].outbound_degree;
            let ghost before = entries@;
            if degree >= 2 {
                proof {
                    assert(self.degree_rows()[k as int].outbound_degree <= self.channel_count());
                }
                let row_keys = &keys[k];
                let mut t: usize = 0;
                while t <= degree
                    invariant
                        k < self.degree_rows().len(),
                        degree == self.degree_rows()[k as int].outbound_degree,
                        degree >= 2,
                        degree < usize::MAX,
                        row_keys == keys@[k as int],
                        row_keys@.len() == degree + 1,
                        forall|u: int|
                            0 <= u <= degree ==> #[trigger] row_keys@[u] == self.key_lookups(
                                words,
                                degree as int,
                                u,
                                self.channel_count(),
                            ),
                        t <= degree + 1,
                        entries@ == before + self.row_lookup_entries(words, k as int, t as int),
                    decreases degree + 1 - t,
                {
                    let lookups = row_keys[t];
                    if lookups != 0 {
                        entries.push(
                            LookupIterationProfile {
                                outbound_degree: degree,
                                binary_search_iterations: t,
                                lookups,
                            },
                        );
                    }
                    proof {
                        assert(entries@ =~= before + self.row_lookup_entries(words, k as int, t + 1));
                    }
                    t = t + 1;
                }
            }
            proof {
                assert(entries@ =~= self.lookup_histogram(words, k + 1));
            }
            k = k + 1;
        }
        entries
    }
}

fn row_remote_emissions(row: &OutboundDegreeProfile) -> (value: u128)
    ensures
        value == row.remote_emissions,
{
    row.remote_emissions
}

fn row_binary_search_lookups(row: &OutboundDegreeProfile) -> (value: u128)
    ensures
        value == row.binary_search_lookups,
{
    row.binary_search_lookups
}

fn row_binary_search_iterations(row: &OutboundDegreeProfile) -> (value: u128)
    ensures
        value == row.binary_search_iterations,
{
    row.binary_search_iterations
}

/// Degree rows with nothing counted: each keeps its degree and producer count.
pub open spec fn spec_quiet_rows(rows: Seq<DegreeRow>) -> Seq<OutboundDegreeProfile> {
    Seq::new(
        rows.len(),
        |k: int|
            OutboundDegreeProfile {
                outbound_degree: rows[k].outbound_degree,
                producer_count: rows[k].producer_count,
                remote_emissions: 0,
                binary_search_lookups: 0,
                binary_search_iterations: 0,
            },
    )
}

proof fn lemma_zero_values_total(values: Seq<int>, upto: int)
    requires
        0 <= upto <= values.len(),
        forall|i: int| 0 <= i < upto ==> values[i] == 0,
    ensures
        spec_total(values, upto) == 0,
        spec_weighted_total(values, upto) == 0,
        spec_visit_entries(values, upto) == Seq::<HeadVisitProfile>::empty(),
    decreases upto,
{
    if upto > 0 {
        lemma_zero_values_total(values, upto - 1);
    }
}

proof fn lemma_quiet_rows_total(
    rows: Seq<OutboundDegreeProfile>,
    field: spec_fn(OutboundDegreeProfile) -> u128,
    upto: int,
)
    requires
        0 <= upto <= rows.len(),
        forall|k: int| 0 <= k < upto ==> field(#[trigger] rows[k]) == 0,
    ensures
        spec_rows_total(rows, field, upto) == 0,
    decreases upto,
{
    if upto > 0 {
        lemma_quiet_rows_total(rows, field, upto - 1);
    }
}

impl DrainProfileLayout {
    proof fn lemma_zero_first_flag(&self, words: Seq<u64>, node: int)
        requires
            0 <= node <= self.node_count() <= words.len(),
            forall|i: int| 0 <= i < words.len() ==> words[i] == 0,
        ensures
            self.first_flag(words, node) == self.node_count(),
        decreases self.node_count() - node,
    {
        if node < self.node_count() {
            self.lemma_zero_first_flag(words, node + 1);
        }
    }

    proof fn lemma_zero_bin_total(&self, words: Seq<u64>, bin: int, upto: int)
        requires
            self.wf(),
            0 <= bin,
            0 <= upto <= self.node_count(),
            words.len() == self.spec_words(),
            forall|i: int| 0 <= i < words.len() ==> words[i] == 0,
        ensures
            self.bin_total(words, bin, upto) == 0,
        decreases upto,
    {
        if upto > 0 {
            self.lemma_zero_bin_total(words, bin, upto - 1);
            let range = self.head_ranges()[upto - 1];
            if bin < self.row_width(upto - 1) {
                assert(range.start + bin < words.len());
            }
        }
    }

    proof fn lemma_zero_channel_sums(&self, words: Seq<u64>, degree: int, probes: int, upto: int)
        requires
            self.wf(),
            0 <= upto <= self.channel_count(),
            words.len() == self.spec_words(),
            forall|i: int| 0 <= i < words.len() ==> words[i] == 0,
        ensures
            self.degree_emissions(words, degree, upto) == 0,
            self.degree_iterations(words, degree, upto) == 0,
            self.key_lookups(words, degree, probes, upto) == 0,
        decreases upto,
    {
        if upto > 0 {
            self.lemma_zero_channel_sums(words, degree, probes, upto - 1);
            let index = self.spec_channel_emissions_offset() + upto - 1;
            assert(0 <= index < words.len());
            assert(self.emissions(words, upto - 1) == 0);
        }
    }

    proof fn lemma_zero_row_entries(&self, words: Seq<u64>, k: int, upto: int)
        requires
            self.wf(),
            words.len() == self.spec_words(),
            forall|i: int| 0 <= i < words.len() ==> words[i] == 0,
        ensures
            self.row_lookup_entries(words, k, upto) == Seq::<LookupIterationProfile>::empty(),
        decreases upto,
    {
        if upto > 0 {
            let degree = self.degree_rows()[k].outbound_degree;
            self.lemma_zero_channel_sums(words, degree as int, upto - 1, self.channel_count());
            self.lemma_zero_row_entries(words, k, upto - 1);
        }
    }

    proof fn lemma_zero_lookup_histogram(&self, words: Seq<u64>, upto: int)
        requires
            self.wf(),
            0 <= upto,
            words.len() == self.spec_words(),
            forall|i: int| 0 <= i < words.len() ==> words[i] == 0,
        ensures
            self.lookup_histogram(words, upto) == Seq::<LookupIterationProfile>::empty(),
        decreases upto,
    {
        if upto > 0 {
            self.lemma_zero_lookup_histogram(words, upto - 1);
            let degree = self.degree_rows()[upto - 1].outbound_degree;
            if degree >= 2 {
                self.lemma_zero_row_entries(words, upto - 1, degree + 1);
            }
            assert(self.lookup_histogram(words, upto) =~= Seq::<LookupIterationProfile>::empty());
        }
    }

    /// Decoding an all-zero readback of the layout's size succeeds and counts nothing: no
    /// selected events or head visits, no emissions, lookups or probes, empty histograms, and
    /// one row per outbound degree that keeps its producer count.
    pub proof fn law_zeroed_readback_is_quiet(&self, words: Seq<u64>)
        requires
            self.wf(),
            words.len() == self.spec_words(),
            forall|i: int| 0 <= i < words.len() ==> words[i] == 0,
        ensures
            self.decode_error(words) is None,
            forall|profile: DrainProfile|
                #![trigger self.decodes_to(words, profile)]
                self.decodes_to(words, profile) <==> {
                    &&& profile.selected_events == 0
                    &&& profile.head_visits == 0
                    &&& profile.head_visit_histogram@ == Seq::<HeadVisitProfile>::empty()
                    &&& profile.remote_emissions == 0
                    &&& profile.binary_search_lookups == 0
                    &&& profile.binary_search_iterations == 0
                    &&& profile.lookup_iteration_histogram@ == Seq::<LookupIterationProfile>::empty()
                    &&& profile.outbound_degrees@ == spec_quiet_rows(self.degree_rows())
                },
    {
        let bins = self.bins(words);
        let rows = self.degree_rows();
        let channels = self.channel_count();
        self.lemma_zero_first_flag(words, 0);
        assert forall|bin: int| 0 <= bin < bins.len() implies #[trigger] bins[bin] == 0 by {
            self.lemma_zero_bin_total(words, bin, self.node_count());
        }
        lemma_zero_values_total(bins, bins.len() as int);
        assert forall|k: int| 0 <= k < rows.len() implies {
            &&& self.degree_emissions(words, (#[trigger] rows[k]).outbound_degree as int, channels) == 0
            &&& self.degree_iterations(words, rows[k].outbound_degree as int, channels) == 0
        } by {
            self.lemma_zero_channel_sums(words, rows[k].outbound_degree as int, 0, channels);
        }
        assert forall|k: int, t: int| 0 <= k < rows.len() implies #[trigger] self.key_lookups(
            words,
            (#[trigger] rows[k]).outbound_degree as int,
            t,
            channels,
        ) == 0 by {
            self.lemma_zero_channel_sums(words, rows[k].outbound_degree as int, t, channels);
        }
        let profiles = self.degree_profiles(words);
        assert forall|k: int| 0 <= k < rows.len() implies #[trigger] profiles[k] == spec_quiet_rows(
            rows,
        )[k] by {
            self.lemma_zero_channel_sums(words, rows[k].outbound_degree as int, 0, channels);
        }
        assert(profiles =~= spec_quiet_rows(rows));
        lemma_quiet_rows_total(profiles, spec_remote_field(), profiles.len() as int);
        lemma_quiet_rows_total(profiles, spec_lookups_field(), profiles.len() as int);
        lemma_quiet_rows_total(profiles, spec_iterations_field(), profiles.len() as int);
        self.lemma_zero_lookup_histogram(words, rows.len() as int);
        lemma_zero_visit_overflow(bins, 0);
        self.lemma_zero_channel_overflow(words, 0);
        assert(self.overflow_kind(words) is None);
    }

    proof fn lemma_zero_channel_overflow(&self, words: Seq<u64>, channel: int)
        requires
            self.wf(),
            0 <= channel,
            words.len() == self.spec_words(),
            forall|i: int| 0 <= i < words.len() ==> words[i] == 0,
        ensures
            self.channel_overflow(words, channel) is None,
        decreases self.channel_count() - channel,
    {
        if channel < self.channel_count() {
            let lookup = self.channel_lookups()[channel];
            let degree = lookup.outbound_degree as int;
            let probes = lookup.binary_search_iterations as int;
            self.lemma_zero_channel_sums(words, degree, probes, channel + 1);
            assert(0 <= self.spec_channel_emissions_offset() + channel < words.len());
            assert(self.emissions(words, channel) == 0);
            self.lemma_zero_channel_overflow(words, channel + 1);
        }
    }
}

proof fn lemma_zero_visit_overflow(values: Seq<int>, index: int)
    requires
        0 <= index,
        forall|i: int| 0 <= i < values.len() ==> values[i] == 0,
    ensures
        spec_visit_overflow(values, index) is None,
    decreases values.len() - index,
{
    if index < values.len() {
        lemma_zero_visit_overflow(values, index + 1);
    }
}

impl DrainProfileLayout {
    /// Why `decode` refuses a readback, if it does: a readback of the wrong size, then the first
    /// raised LP invariant flag, then a total that does not fit `u128`.
    pub open spec fn decode_error(&self, words: Seq<u64>) -> Option<DrainProfileError> {
        if words.len() != self.spec_words() {
            Some(
                DrainProfileError::ReadbackLength {
                    actual: words.len() as usize,
                    expected: self.spec_words(),
                },
            )
        } else if self.first_flag(words, 0) < self.node_count() {
            Some(
                DrainProfileError::NodeFlag {
                    node: self.first_flag(words, 0) as usize,
                    flag: words[self.first_flag(words, 0)],
                },
            )
        } else if self.overflow_kind(words) is Some {
            Some(DrainProfileError::CounterOverflow(self.overflow_kind(words)->0))
        } else {
            None
        }
    }

    /// Decodes a readback: refuses a readback of the wrong size, then the first raised LP
    /// invariant flag, then any total that does not fit `u128`; otherwise gives the exact
    /// head-count histogram, per-degree emission and lookup rows, and their totals.
    pub fn decode(&self, words: &[u64]) -> (result: Result<DrainProfile, DrainProfileError>)
        requires
            self.wf(),
        ensures
            self.decode_error(words@) matches Some(error) ==> result == Err::<DrainProfile, _>(error),
            self.decode_error(words@) is None ==> (result matches Ok(profile) && self.decodes_to(
                words@,
                profile,
            )),
    {
        if words.len() != self.words {
            return Err(DrainProfileError::ReadbackLength { actual: words.len(), expected: self.words });
        }
        let node = self.first_raised_flag(words);
        proof {
            self.lemma_first_flag_bounds(words@, 0);
        }
        if node < self.head_histogram_offset {
            return Err(DrainProfileError::NodeFlag { node, flag: words[node] });
        }
        let ghost all_bins = self.bins(words@);
        let bins = match self.bin_totals(words) {
            Some(bins) => bins,
            None => {
                return Err(DrainProfileError::CounterOverflow(OverflowedTotal::HeadHistogram));
            },
        };
        let (selected_events, head_visits, head_visit_histogram) = match head_visit_summary(
            &bins,
            Ghost(all_bins),
        ) {
            Ok(summary) => summary,
            Err(total) => {
                return Err(DrainProfileError::CounterOverflow(total));
            },
        };
        let (emissions, iterations, keys) = match self.degree_accumulators(words) {
            Ok(accumulators) => accumulators,
            Err(total) => {
                return Err(DrainProfileError::CounterOverflow(total));
            },
        };
        let outbound_degrees = self.degree_profile_rows(&emissions, &iterations, Ghost(words@));
        let remote_emissions = match checked_row_sum(
            &outbound_degrees,
            row_remote_emissions,
            Ghost(spec_remote_field()),
        ) {
            Ok(total) => total,
            Err(error) => {
                return Err(error);
            },
        };
        let binary_search_lookups = match checked_row_sum(
            &outbound_degrees,
            row_binary_search_lookups,
            Ghost(spec_lookups_field()),
        ) {
            Ok(total) => total,
            Err(error) => {
                return Err(error);
            },
        };
        let binary_search_iterations = match checked_row_sum(
            &outbound_degrees,
            row_binary_search_iterations,
            Ghost(spec_iterations_field()),
        ) {
            Ok(total) => total,
            Err(error) => {
                return Err(error);
            },
        };
        let lookup_iteration_histogram = self.lookup_entries(&keys, Ghost(words@));
        Ok(
            DrainProfile {
                selected_events,
                head_visits,
                head_visit_histogram,
                remote_emissions,
                binary_search_lookups,
                binary_search_iterations,
                lookup_iteration_histogram,
                outbound_degrees,
            },
        )
    }
}

impl DrainProfileLayout {
    /// Events LP `node`'s first `upto` histogram bins record.
    pub open spec fn row_selected(&self, words: Seq<u64>, node: int, upto: int) -> int
        decreases upto,
    {
        if upto <= 0 {
            0
        } else {
            self.row_selected(words, node, upto - 1) + words[self.head_ranges()[node].start + upto - 1]
        }
    }

    /// Events LP `node`'s whole histogram row records.
    pub open spec fn node_selected(&self, words: Seq<u64>, node: int) -> int {
        self.row_selected(words, node, self.row_width(node))
    }

    /// First LP at or after `node` whose row does not add up to its executed transitions, or the
    /// LP count.
    pub open spec fn first_mismatch(&self, words: Seq<u64>, executed: Seq<u64>, node: int) -> int
        decreases self.node_count() - node,
    {
        if node >= self.node_count() {
            self.node_count()
        } else if self.node_selected(words, node) != executed[node] {
            node
        } else {
            self.first_mismatch(words, executed, node + 1)
        }
    }

    proof fn lemma_first_mismatch_bounds(&self, words: Seq<u64>, executed: Seq<u64>, node: int)
        requires
            0 <= node <= self.node_count(),
        ensures
            node <= self.first_mismatch(words, executed, node) <= self.node_count(),
        decreases self.node_count() - node,
    {
        if node < self.node_count() && self.node_selected(words, node) == executed[node] {
            self.lemma_first_mismatch_bounds(words, executed, node + 1);
        }
    }

    /// Events LP `node`'s histogram row records, summed exactly.
    fn node_selected_events(&self, words: &[u64], node: usize) -> (selected: u128)
        requires
            self.wf(),
            words@.len() == self.spec_words(),
            node < self.node_count(),
        ensures
            selected == self.node_selected(words@, node as int),
    {
        let range = self.head_ranges[node];
        proof {
            assert(self.head_ranges()[node as int] == range);
        }
        let width = range.end - range.start;
        let mut selected: u128 = 0;
        let mut j: usize = 0;
        while j < width
            invariant
                self.wf(),
                words@.len() == self.spec_words(),
                node < self.node_count(),
                range == self.head_ranges()[node as int],
                width == self.row_width(node as int),
                range.end <= self.spec_channel_emissions_offset(),
                j <= width,
                selected == self.row_selected(words@, node as int, j as int),
                selected <= j * 0xffff_ffff_ffff_ffffu128,
            decreases width - j,
        {
            let count = words[range.start + j];
            proof {
                assert(selected + count <= (j + 1) * 0xffff_ffff_ffff_ffffu128) by (nonlinear_arith)
                    requires
                        selected <= j * 0xffff_ffff_ffff_ffffu128,
                        count <= 0xffff_ffff_ffff_ffffu64,
                ;
                assert((j + 1) * 0xffff_ffff_ffff_ffffu128 <= u128::MAX) by (nonlinear_arith)
                    requires
                        j + 1 <= usize::MAX,
                        usize::MAX <= 0xffff_ffff_ffff_ffffu64,
                ;
            }
            selected = selected + count as u128;
            j = j + 1;
        }
        selected
    }

    /// Decodes counters and reconciles every LP-owned histogram row with that LP's independent
    /// final transition counter.
    ///
    /// The per-LP check rejects compensating misses/double-counts that leave the run-wide sum
    /// unchanged. Device profiling APIs use this checked entry point; the unchecked decoder is
    /// retained for layout-focused tests and tooling that has no execution result to reconcile.
    pub fn decode_checked(&self, words: &[u64], expected_transitions_by_lp: &[u64]) -> (result: Result<
        DrainProfile,
        DrainProfileError,
    >)
        requires
            self.wf(),
        ensures
            self.decode_error(words@) matches Some(error) ==> result == Err::<DrainProfile, _>(error),
            self.decode_error(words@) is None && expected_transitions_by_lp@.len() != self.node_count()
                ==> result == Err::<DrainProfile, _>(
                DrainProfileError::TransitionTotals {
                    actual: expected_transitions_by_lp@.len() as usize,
                    expected: self.node_count() as usize,
                },
            ),
            self.decode_error(words@) is None && expected_transitions_by_lp@.len() == self.node_count()
                && self.first_mismatch(words@, expected_transitions_by_lp@, 0) < self.node_count()
                ==> result == Err::<DrainProfile, _>(
                DrainProfileError::TransitionMismatch {
                    node: self.first_mismatch(words@, expected_transitions_by_lp@, 0) as usize,
                    selected: self.node_selected(
                        words@,
                        self.first_mismatch(words@, expected_transitions_by_lp@, 0),
                    ) as u128,
                    executed: expected_transitions_by_lp@[self.first_mismatch(
                        words@,
                        expected_transitions_by_lp@,
                        0,
                    )],
                },
            ),
            self.decode_error(words@) is None && expected_transitions_by_lp@.len() == self.node_count()
                && self.first_mismatch(words@, expected_transitions_by_lp@, 0) == self.node_count()
                ==> (result matches Ok(profile) && self.decodes_to(words@, profile)),
    {
        let profile = match self.decode(words) {
            Ok(profile) => profile,
            Err(error) => {
                return Err(error);
            },
        };
        let nodes = self.head_ranges.len();
        if expected_transitions_by_lp.len() != nodes {
            return Err(
                DrainProfileError::TransitionTotals {
                    actual: expected_transitions_by_lp.len(),
                    expected: nodes,
                },
            );
        }
        proof {
            self.lemma_first_mismatch_bounds(words@, expected_transitions_by_lp@, 0);
        }
        let mut node: usize = 0;
        while node < nodes
            invariant
                node <= nodes == self.node_count(),
                self.wf(),
                words@.len() == self.spec_words(),
                expected_transitions_by_lp@.len() == nodes,
                self.decode_error(words@) is None,
                self.decodes_to(words@, profile),
                self.first_mismatch(words@, expected_transitions_by_lp@, 0) == self.first_mismatch(
                    words@,
                    expected_transitions_by_lp@,
                    node as int,
                ),
            decreases nodes - node,
        {
            let selected = self.node_selected_events(words, node);
            let executed = expected_transitions_by_lp[node];
            if selected != executed as u128 {
                return Err(DrainProfileError::TransitionMismatch { node, selected, executed });
            }
            node = node + 1;
        }
        Ok(profile)
    }

    /// Writes LP `node`'s invariant flag into a readback buffer.
    pub fn set_node_flag_for_testing(&self, words: &mut [u64], node: usize, flag: u64)
        requires
            node < old(words)@.len(),
            node < self.spec_head_histogram_offset(),
        ensures
            final(words)@ == old(words)@.update(node as int, flag),
    {
        words[node] = flag;
    }

    /// Writes the count of events LP `node` selected after visiting `heads_visited` heads.
    pub fn set_head_bin_for_testing(
        &self,
        words: &mut [u64],
        node: usize,
        heads_visited: usize,
        count: u64,
    )
        requires
            self.wf(),
            old(words)@.len() == self.spec_words(),
            node < self.node_count(),
            1 <= heads_visited <= self.row_width(node as int),
        ensures
            final(words)@ == old(words)@.update(
                self.head_ranges()[node as int].start + heads_visited - 1,
                count,
            ),
    {
        let range = self.head_ranges[node];
        proof {
            assert(self.head_ranges()[node as int] == range);
        }
        words[range.start + heads_visited - 1] = count;
    }

    /// Writes channel `channel`'s emission counter into a readback buffer.
    pub fn set_channel_emissions_for_testing(&self, words: &mut [u64], channel: usize, count: u64)
        requires
            self.wf(),
            old(words)@.len() == self.spec_words(),
            channel < self.channel_count(),
        ensures
            final(words)@ == old(words)@.update(
                self.spec_channel_emissions_offset() + channel,
                count,
            ),
    {
        words[self.channel_emissions_offset + channel] = count;
    }
}

} // verus!
