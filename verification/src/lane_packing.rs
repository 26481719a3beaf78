//! Device active-lane packing policy and its counter-only evidence.
//!
//! Packing changes only the active-worklist permutation. It does not change semantic ownership,
//! launch geometry, transition limits, or canonical result ordering.

use vstd::prelude::*;

use crate::aqm_trace::{push_decimal, push_text, spec_decimal};

verus! {

/// Lanes in one physical SIMD group.
pub const LANE_GROUP_WIDTH: usize = 32;

/// Device active-lane packing policy.
#[derive(Clone, Copy, Debug, PartialEq, Eq, Structural)]
pub enum DeviceLanePacking {
    /// Retains stable ascending-LP compaction exactly as produced by the device prefix scan.
    Unpacked,
    /// Packs the hottest predicted LPs first, so grid order is descending LPT issue order.
    Descending,
    /// Retains the descending arm's 32-lane groups and reverses the full groups' issue order.
    /// The final short group remains trailing because dense unchanged launch geometry cannot move
    /// it ahead of a full group without mixing their lanes.
    Ascending,
}

/// The word a device kernel reads for each packing policy.
pub open spec fn spec_device_code(packing: DeviceLanePacking) -> u64 {
    match packing {
        DeviceLanePacking::Unpacked => 0,
        DeviceLanePacking::Descending => 1,
        DeviceLanePacking::Ascending => 2,
    }
}

impl DeviceLanePacking {
    pub fn label(self) -> (label: &'static str)
        ensures
            label@ == (match self {
                DeviceLanePacking::Unpacked => "unpacked"@,
                DeviceLanePacking::Descending => "descending"@,
                DeviceLanePacking::Ascending => "ascending"@,
            }),
    {
        match self {
            DeviceLanePacking::Unpacked => "unpacked",
            DeviceLanePacking::Descending => "descending",
            DeviceLanePacking::Ascending => "ascending",
        }
    }

    /// Stable device word of the policy.
    pub fn device_code(self) -> (code: u64)
        ensures
            code == spec_device_code(self),
    {
        match self {
            DeviceLanePacking::Unpacked => 0,
            DeviceLanePacking::Descending => 1,
            DeviceLanePacking::Ascending => 2,
        }
    }

    pub fn is_packed(self) -> (packed: bool)
        ensures
            packed <==> !(self is Unpacked),
    {
        !matches!(self, DeviceLanePacking::Unpacked)
    }
}

impl Default for DeviceLanePacking {
    fn default() -> (packing: Self)
        ensures
            packing == DeviceLanePacking::Unpacked,
    {
        DeviceLanePacking::Unpacked
    }
}

/// Exact counter-only work for one physical SIMD32 lane group.
#[derive(Clone, Copy, Debug, PartialEq, Eq, Structural)]
pub struct LanePackingGroupCounters {
    pub lanes: u64,
    pub work: u64,
    pub maximum_lane_work: u64,
}

/// Counter-only device mechanism evidence, grouped by semantic round and grid order.
#[derive(Clone, Debug, Default, PartialEq, Eq)]
pub struct LanePackingCounters {
    pub rounds: Vec<Vec<LanePackingGroupCounters>>,
}

/// All groups of all rounds, rounds in order and groups in grid order inside each round.
pub open spec fn spec_flatten_groups(rounds: Seq<Vec<LanePackingGroupCounters>>) -> Seq<LanePackingGroupCounters>
    decreases rounds.len(),
{
    if rounds.len() == 0 {
        Seq::empty()
    } else {
        spec_flatten_groups(rounds.drop_last()) + rounds.last()@
    }
}

/// Slowest-lane work of each group, in order.
pub open spec fn spec_maxima(groups: Seq<LanePackingGroupCounters>) -> Seq<u64> {
    groups.map_values(|group: LanePackingGroupCounters| group.maximum_lane_work)
}

/// Useful lane-work: the sum of every group's work.
pub open spec fn spec_useful_work(groups: Seq<LanePackingGroupCounters>) -> int
    decreases groups.len(),
{
    if groups.len() == 0 {
        0
    } else {
        spec_useful_work(groups.drop_last()) + groups.last().work
    }
}

/// Lane-time capacity: every group's lanes held for its slowest lane.
pub open spec fn spec_lane_capacity(groups: Seq<LanePackingGroupCounters>) -> int
    decreases groups.len(),
{
    if groups.len() == 0 {
        0
    } else {
        spec_lane_capacity(groups.drop_last()) + groups.last().lanes * groups.last().maximum_lane_work
    }
}

proof fn lemma_flatten_step(rounds: Seq<Vec<LanePackingGroupCounters>>, i: int)
    requires
        0 <= i < rounds.len(),
    ensures
        spec_flatten_groups(rounds.take(i + 1)) == spec_flatten_groups(rounds.take(i)) + rounds[i]@,
{
    assert(rounds.take(i + 1).drop_last() =~= rounds.take(i));
}

proof fn lemma_sums_concat(a: Seq<LanePackingGroupCounters>, b: Seq<LanePackingGroupCounters>)
    ensures
        spec_useful_work(a + b) == spec_useful_work(a) + spec_useful_work(b),
        spec_lane_capacity(a + b) == spec_lane_capacity(a) + spec_lane_capacity(b),
    decreases b.len(),
{
    if b.len() == 0 {
        assert(a + b =~= a);
    } else {
        assert((a + b).drop_last() =~= a + b.drop_last());
        lemma_sums_concat(a, b.drop_last());
    }
}

proof fn lemma_sums_nonnegative(groups: Seq<LanePackingGroupCounters>)
    ensures
        spec_useful_work(groups) >= 0,
        spec_lane_capacity(groups) >= 0,
    decreases groups.len(),
{
    if groups.len() > 0 {
        lemma_sums_nonnegative(groups.drop_last());
        let g = groups.last();
        assert(g.lanes * g.maximum_lane_work >= 0) by (nonlinear_arith);
    }
}

/// The groups of the first `i` rounds are a prefix of all groups.
proof fn lemma_flatten_prefix(rounds: Seq<Vec<LanePackingGroupCounters>>, i: int) -> (rest: Seq<
    LanePackingGroupCounters,
>)
    requires
        0 <= i <= rounds.len(),
    ensures
        spec_flatten_groups(rounds) == spec_flatten_groups(rounds.take(i)) + rest,
    decreases rounds.len() - i,
{
    if i == rounds.len() {
        assert(rounds.take(i) =~= rounds);
        assert(spec_flatten_groups(rounds) =~= spec_flatten_groups(rounds.take(i)) + Seq::<
            LanePackingGroupCounters,
        >::empty());
        Seq::empty()
    } else {
        let later = lemma_flatten_prefix(rounds, i + 1);
        lemma_flatten_step(rounds, i);
        assert(spec_flatten_groups(rounds) =~= spec_flatten_groups(rounds.take(i)) + (rounds[i]@
            + later));
        rounds[i]@ + later
    }
}

/// Both sums of a prefix of the groups are bounded by the sums of all groups.
proof fn lemma_prefix_sums_bounded(
    rounds: Seq<Vec<LanePackingGroupCounters>>,
    i: int,
    j: int,
)
    requires
        0 <= i < rounds.len(),
        0 <= j <= rounds[i]@.len(),
    ensures
        spec_useful_work(spec_flatten_groups(rounds.take(i)) + rounds[i]@.take(j)) <= spec_useful_work(spec_flatten_groups(rounds)),
        spec_lane_capacity(spec_flatten_groups(rounds.take(i)) + rounds[i]@.take(j)) <= spec_lane_capacity(spec_flatten_groups(rounds)),
{
    let rest = lemma_flatten_prefix(rounds, i + 1);
    lemma_flatten_step(rounds, i);
    let prefix = spec_flatten_groups(rounds.take(i)) + rounds[i]@.take(j);
    let tail = rounds[i]@.skip(j) + rest;
    assert(spec_flatten_groups(rounds) =~= prefix + tail);
    lemma_sums_concat(prefix, tail);
    lemma_sums_nonnegative(tail);
}

impl LanePackingCounters {
    /// Every group's slowest-lane work, rounds in order and groups in grid order.
    pub fn group_maxima(&self) -> (maxima: Vec<u64>)
        ensures
            maxima@ == spec_maxima(spec_flatten_groups(self.rounds@)),
    {
        let mut maxima: Vec<u64> = Vec::new();
        let mut i: usize = 0;
        while i < self.rounds.len()
            invariant
                i <= self.rounds.len(),
                maxima@ == spec_maxima(spec_flatten_groups(self.rounds@.take(i as int))),
            decreases self.rounds.len() - i,
        {
            let round = &self.rounds[i];
            let ghost before = spec_flatten_groups(self.rounds@.take(i as int));
            let mut j: usize = 0;
            while j < round.len()
                invariant
                    i < self.rounds.len(),
                    round == self.rounds@[i as int],
                    j <= round.len(),
                    maxima@ == spec_maxima(before + round@.take(j as int)),
                decreases round.len() - j,
            {
                let group = round[j];
                maxima.push(group.maximum_lane_work);
                proof {
                    assert((before + round@.take(j + 1)) =~= (before + round@.take(j as int)).push(group));
                    assert(spec_maxima(before + round@.take(j + 1)) =~= spec_maxima(
                        before + round@.take(j as int),
                    ).push(group.maximum_lane_work));
                }
                j = j + 1;
            }
            proof {
                assert(round@.take(j as int) =~= round@);
                lemma_flatten_step(self.rounds@, i as int);
            }
            i = i + 1;
        }
        proof {
            assert(self.rounds@.take(i as int) =~= self.rounds@);
        }
        maxima
    }

    /// The exact totals of `lane_work_totals`, or nothing when either exceeds `u128`.
    pub fn checked_lane_work_totals(&self) -> (totals: Option<(u128, u128)>)
        ensures
            match totals {
                Some((useful, capacity)) => useful == spec_useful_work(
                    spec_flatten_groups(self.rounds@),
                ) && capacity == spec_lane_capacity(spec_flatten_groups(self.rounds@)),
                None => spec_useful_work(spec_flatten_groups(self.rounds@)) > u128::MAX
                    || spec_lane_capacity(spec_flatten_groups(self.rounds@)) > u128::MAX,
            },
    {
        let ghost all = spec_flatten_groups(self.rounds@);
        let mut useful: u128 = 0;
        let mut capacity: u128 = 0;
        let mut i: usize = 0;
        while i < self.rounds.len()
            invariant
                i <= self.rounds.len(),
                all == spec_flatten_groups(self.rounds@),
                useful == spec_useful_work(spec_flatten_groups(self.rounds@.take(i as int))),
                capacity == spec_lane_capacity(spec_flatten_groups(self.rounds@.take(i as int))),
            decreases self.rounds.len() - i,
        {
            let round = &self.rounds[i];
            let ghost before = spec_flatten_groups(self.rounds@.take(i as int));
            let mut j: usize = 0;
            while j < round.len()
                invariant
                    i < self.rounds.len(),
                    round == self.rounds@[i as int],
                    j <= round.len(),
                    all == spec_flatten_groups(self.rounds@),
                    before == spec_flatten_groups(self.rounds@.take(i as int)),
                    useful == spec_useful_work(before + round@.take(j as int)),
                    capacity == spec_lane_capacity(before + round@.take(j as int)),
                decreases round.len() - j,
            {
                let group = round[j];
                proof {
                    let next = before + round@.take(j + 1);
                    assert(next.drop_last() =~= before + round@.take(j as int));
                    assert(next.last() == group);
                    lemma_prefix_sums_bounded(self.rounds@, i as int, j + 1);
                    assert((group.lanes as u128) * (group.maximum_lane_work as u128) <= u128::MAX)
                        by (nonlinear_arith)
                        requires
                            group.lanes <= u64::MAX,
                            group.maximum_lane_work <= u64::MAX,
                    ;
                }
                let slot_capacity = (group.lanes as u128) * (group.maximum_lane_work as u128);
                match (useful.checked_add(group.work as u128), capacity.checked_add(slot_capacity)) {
                    (Some(next_useful), Some(next_capacity)) => {
                        useful = next_useful;
                        capacity = next_capacity;
                    },
                    _ => return None,
                }
                j = j + 1;
            }
            proof {
                assert(round@.take(j as int) =~= round@);
                lemma_flatten_step(self.rounds@, i as int);
            }
            i = i + 1;
        }
        proof {
            assert(self.rounds@.take(i as int) =~= self.rounds@);
        }
        Some((useful, capacity))
    }

    /// Exact useful lane-work and lane-time capacity over every group, in that order; their
    /// quotient is the lane-time utilization, 1 when the capacity is zero.
    pub fn lane_work_totals(&self) -> (totals: (u128, u128))
        requires
            spec_useful_work(spec_flatten_groups(self.rounds@)) <= u128::MAX,
            spec_lane_capacity(spec_flatten_groups(self.rounds@)) <= u128::MAX,
        ensures
            totals.0 == spec_useful_work(spec_flatten_groups(self.rounds@)),
            totals.1 == spec_lane_capacity(spec_flatten_groups(self.rounds@)),
    {
        let ghost all = spec_flatten_groups(self.rounds@);
        let mut useful: u128 = 0;
        let mut capacity: u128 = 0;
        let mut i: usize = 0;
        while i < self.rounds.len()
            invariant
                i <= self.rounds.len(),
                all == spec_flatten_groups(self.rounds@),
                spec_useful_work(all) <= u128::MAX,
                spec_lane_capacity(all) <= u128::MAX,
                useful == spec_useful_work(spec_flatten_groups(self.rounds@.take(i as int))),
                capacity == spec_lane_capacity(spec_flatten_groups(self.rounds@.take(i as int))),
            decreases self.rounds.len() - i,
        {
            let round = &self.rounds[i];
            let ghost before = spec_flatten_groups(self.rounds@.take(i as int));
            let mut j: usize = 0;
            while j < round.len()
                invariant
                    i < self.rounds.len(),
                    round == self.rounds@[i as int],
                    j <= round.len(),
                    all == spec_flatten_groups(self.rounds@),
                    spec_useful_work(all) <= u128::MAX,
                    spec_lane_capacity(all) <= u128::MAX,
                    before == spec_flatten_groups(self.rounds@.take(i as int)),
                    useful == spec_useful_work(before + round@.take(j as int)),
                    capacity == spec_lane_capacity(before + round@.take(j as int)),
                decreases round.len() - j,
            {
                let group = round[j];
                proof {
                    let next = before + round@.take(j + 1);
                    assert(next.drop_last() =~= before + round@.take(j as int));
                    assert(next.last() == group);
                    lemma_prefix_sums_bounded(self.rounds@, i as int, j + 1);
                    assert((group.lanes as u128) * (group.maximum_lane_work as u128) <= u128::MAX)
                        by (nonlinear_arith)
                        requires
                            group.lanes <= u64::MAX,
                            group.maximum_lane_work <= u64::MAX,
                    ;
                }
                useful = useful + group.work as u128;
                capacity = capacity + (group.lanes as u128) * (group.maximum_lane_work as u128);
                j = j + 1;
            }
            proof {
                assert(round@.take(j as int) =~= round@);
                lemma_flatten_step(self.rounds@, i as int);
            }
            i = i + 1;
        }
        proof {
            assert(self.rounds@.take(i as int) =~= self.rounds@);
        }
        (useful, capacity)
    }
}

/// Why a lane-packing counter plane was refused.
#[derive(Clone, Copy, Debug, PartialEq, Eq, Structural)]
pub enum LanePackingDecodeError {
    /// The round count does not fit `usize`.
    RoundCountOverflow,
    /// The per-round record stride overflows `usize`.
    CounterStrideOverflow,
    /// The counter plane's base offset overflows `usize`.
    CounterBaseOverflow,
    /// The counter plane's extent overflows `usize`.
    CounterExtentOverflow,
    /// The plane holds fewer words than the layout requires.
    ShortPlane { words: usize, required: usize },
    /// A round's active count does not fit `usize`.
    ActiveCountOverflow { round: usize },
    /// A round records more active LPs than there are nodes.
    ActiveExceedsNodes { round: usize, active: u64, node_count: usize },
}

/// The diagnostic message of a lane-packing decode refusal.
pub open spec fn spec_lane_error_text(error: LanePackingDecodeError) -> Seq<char> {
    match error {
        LanePackingDecodeError::RoundCountOverflow => "lane-packing round count does not fit usize"@,
        LanePackingDecodeError::CounterStrideOverflow => "lane-packing counter stride overflows usize"@,
        LanePackingDecodeError::CounterBaseOverflow => "lane-packing counter base overflows usize"@,
        LanePackingDecodeError::CounterExtentOverflow => "lane-packing counter extent overflows usize"@,
        LanePackingDecodeError::ShortPlane { words, required } => "lane-packing counter plane has "@
            + spec_decimal(words as nat) + " words but "@ + spec_decimal(required as nat)
            + " are required"@,
        LanePackingDecodeError::ActiveCountOverflow { .. } => "lane-packing active count does not fit usize"@,
        LanePackingDecodeError::ActiveExceedsNodes { round, active, node_count } => "lane-packing round "@
            + spec_decimal(round as nat) + " records "@ + spec_decimal(active as nat)
            + " active LPs for "@ + spec_decimal(node_count as nat) + " nodes"@,
    }
}

impl LanePackingDecodeError {
    /// The diagnostic message of the refusal.
    pub fn message(&self) -> (text: String)
        ensures
            text@ == spec_lane_error_text(*self),
    {
        let mut text = String::new();
        match *self {
            LanePackingDecodeError::RoundCountOverflow => {
                push_text(&mut text, "lane-packing round count does not fit usize");
            },
            LanePackingDecodeError::CounterStrideOverflow => {
                push_text(&mut text, "lane-packing counter stride overflows usize");
            },
            LanePackingDecodeError::CounterBaseOverflow => {
                push_text(&mut text, "lane-packing counter base overflows usize");
            },
            LanePackingDecodeError::CounterExtentOverflow => {
                push_text(&mut text, "lane-packing counter extent overflows usize");
            },
            LanePackingDecodeError::ShortPlane { words, required } => {
                push_text(&mut text, "lane-packing counter plane has ");
                push_decimal(&mut text, words as u64);
                push_text(&mut text, " words but ");
                push_decimal(&mut text, required as u64);
                push_text(&mut text, " are required");
            },
            LanePackingDecodeError::ActiveCountOverflow { .. } => {
                push_text(&mut text, "lane-packing active count does not fit usize");
            },
            LanePackingDecodeError::ActiveExceedsNodes { round, active, node_count } => {
                push_text(&mut text, "lane-packing round ");
                push_decimal(&mut text, round as u64);
                push_text(&mut text, " records ");
                push_decimal(&mut text, active);
                push_text(&mut text, " active LPs for ");
                push_decimal(&mut text, node_count as u64);
                push_text(&mut text, " nodes");
            },
        }
        assert(text@ =~= spec_lane_error_text(*self));
        text
    }
}

/// Lane groups needed for `lanes` lanes.
pub open spec fn spec_group_count(lanes: int) -> int {
    (lanes + 31) / 32
}

/// Words per round record: the active count, then `(work, maximum lane work)` per group.
pub open spec fn spec_counter_stride(node_count: int) -> int {
    2 * spec_group_count(node_count) + 1
}

/// First word of the counter records, after the four per-node planes.
pub open spec fn spec_counter_base(node_count: int) -> int {
    4 * node_count
}

/// First word of round `round`'s record.
pub open spec fn spec_round_base(node_count: int, round: int) -> int {
    spec_counter_base(node_count) + round * spec_counter_stride(node_count)
}

/// Words the plane must hold for `rounds` round records.
pub open spec fn spec_counter_extent(node_count: int, rounds: int) -> int {
    spec_counter_base(node_count) + rounds * spec_counter_stride(node_count)
}

/// The layout error of a plane of `len` words, if any, before any record is read.
pub open spec fn spec_counter_layout_error(len: int, node_count: usize, rounds: u64) -> Option<
    LanePackingDecodeError,
> {
    if rounds > usize::MAX {
        Some(LanePackingDecodeError::RoundCountOverflow)
    } else if spec_counter_stride(node_count as int) > usize::MAX {
        Some(LanePackingDecodeError::CounterStrideOverflow)
    } else if spec_counter_base(node_count as int) > usize::MAX {
        Some(LanePackingDecodeError::CounterBaseOverflow)
    } else if spec_counter_extent(node_count as int, rounds as int) > usize::MAX {
        Some(LanePackingDecodeError::CounterExtentOverflow)
    } else if len < spec_counter_extent(node_count as int, rounds as int) {
        Some(
            LanePackingDecodeError::ShortPlane {
                words: len as usize,
                required: spec_counter_extent(node_count as int, rounds as int) as usize,
            },
        )
    } else {
        None
    }
}

/// Active count recorded for round `round`.
pub open spec fn spec_round_active(words: Seq<u64>, node_count: usize, round: int) -> u64 {
    words[spec_round_base(node_count as int, round)]
}

/// First round at or after `round` whose active count exceeds the node count, or `rounds`.
pub open spec fn spec_first_overfull_round(words: Seq<u64>, node_count: usize, round: int, rounds: int) -> int
    decreases rounds - round,
{
    if round >= rounds {
        rounds
    } else if spec_round_active(words, node_count, round) > node_count {
        round
    } else {
        spec_first_overfull_round(words, node_count, round + 1, rounds)
    }
}

/// The error reported for an overfull round.
pub open spec fn spec_overfull_error(words: Seq<u64>, node_count: usize, round: int) -> LanePackingDecodeError {
    let active = spec_round_active(words, node_count, round);
    if active > usize::MAX {
        LanePackingDecodeError::ActiveCountOverflow { round: round as usize }
    } else {
        LanePackingDecodeError::ActiveExceedsNodes { round: round as usize, active, node_count }
    }
}

/// The groups of one round record with `active` active lanes starting at word `base`.
pub open spec fn spec_decoded_round(words: Seq<u64>, base: int, active: int) -> Seq<LanePackingGroupCounters> {
    Seq::new(
        spec_group_count(active) as nat,
        |group: int|
            LanePackingGroupCounters {
                lanes: (if active - 32 * group < 32 {
                    active - 32 * group
                } else {
                    32
                }) as u64,
                work: words[base + 1 + 2 * group],
                maximum_lane_work: words[base + 2 + 2 * group],
            },
    )
}

proof fn lemma_overfull_step(words: Seq<u64>, node_count: usize, round: int, rounds: int)
    requires
        0 <= round < rounds,
        spec_round_active(words, node_count, round) <= node_count,
    ensures
        spec_first_overfull_round(words, node_count, round, rounds) == spec_first_overfull_round(
            words,
            node_count,
            round + 1,
            rounds,
        ),
{
}

proof fn lemma_group_count_monotone(lanes: int, limit: int)
    requires
        0 <= lanes <= limit,
    ensures
        spec_group_count(lanes) <= spec_group_count(limit),
{
    assert((lanes + 31) / 32 <= (limit + 31) / 32) by (nonlinear_arith)
        requires
            0 <= lanes <= limit,
    ;
}

proof fn lemma_round_fits(node_count: int, rounds: int, round: int)
    requires
        0 <= round < rounds,
        node_count >= 0,
    ensures
        spec_round_base(node_count, round) + spec_counter_stride(node_count) <= spec_counter_extent(
            node_count,
            rounds,
        ),
        round * spec_counter_stride(node_count) >= 0,
{
    let stride = spec_counter_stride(node_count);
    assert(stride >= 1);
    assert(round * stride + stride <= rounds * stride) by (nonlinear_arith)
        requires
            round < rounds,
            stride >= 0,
    ;
    assert(round * stride >= 0) by (nonlinear_arith)
        requires
            round >= 0,
            stride >= 0,
    ;
}

/// Decodes the counter-only lane-packing plane: four per-node words, then per round the active
/// count followed by `(work, maximum lane work)` for each of its 32-lane groups.
pub fn decode_lane_packing_counters(words: &[u64], node_count: usize, rounds: u64) -> (result: Result<
    LanePackingCounters,
    LanePackingDecodeError,
>)
    ensures
        spec_counter_layout_error(words@.len() as int, node_count, rounds) matches Some(error)
            ==> result == Err::<LanePackingCounters, _>(error),
        spec_counter_layout_error(words@.len() as int, node_count, rounds) is None
            && spec_first_overfull_round(words@, node_count, 0, rounds as int) < rounds
            ==> result == Err::<LanePackingCounters, _>(
            spec_overfull_error(
                words@,
                node_count,
                spec_first_overfull_round(words@, node_count, 0, rounds as int),
            ),
        ),
        spec_counter_layout_error(words@.len() as int, node_count, rounds) is None
            && spec_first_overfull_round(words@, node_count, 0, rounds as int) == rounds
            ==> (result matches Ok(counters) && counters.rounds@.len() == rounds && forall|round: int|
            0 <= round < rounds ==> (#[trigger] counters.rounds@[round])@ == spec_decoded_round(
                words@,
                spec_round_base(node_count as int, round),
                spec_round_active(words@, node_count, round) as int,
            )),
{
    if rounds > usize::MAX as u64 {
        return Err(LanePackingDecodeError::RoundCountOverflow);
    }
    let round_count = rounds as usize;
    let group_capacity = node_count / 32 + if node_count % 32 != 0 {
        1
    } else {
        0
    };
    assert(group_capacity == spec_group_count(node_count as int));
    if group_capacity > (usize::MAX - 1) / 2 {
        return Err(LanePackingDecodeError::CounterStrideOverflow);
    }
    let stride = group_capacity * 2 + 1;
    if node_count > usize::MAX / 4 {
        return Err(LanePackingDecodeError::CounterBaseOverflow);
    }
    let counter_base = node_count * 4;
    let extent = match round_count.checked_mul(stride) {
        Some(span) => counter_base.checked_add(span),
        None => {
            proof {
                assert(round_count * stride >= 0) by (nonlinear_arith)
                    requires
                        round_count >= 0,
                        stride >= 0,
                ;
            }
            None
        },
    };
    let required = match extent {
        Some(required) => required,
        None => {
            return Err(LanePackingDecodeError::CounterExtentOverflow);
        },
    };
    if words.len() < required {
        return Err(LanePackingDecodeError::ShortPlane { words: words.len(), required });
    }
    let mut decoded = LanePackingCounters { rounds: Vec::new() };
    let mut round: usize = 0;
    while round < round_count
        invariant
            round <= round_count,
            round_count == rounds,
            group_capacity == spec_group_count(node_count as int),
            stride == spec_counter_stride(node_count as int),
            counter_base == spec_counter_base(node_count as int),
            required == spec_counter_extent(node_count as int, rounds as int),
            required <= words@.len(),
            spec_counter_layout_error(words@.len() as int, node_count, rounds) is None,
            spec_first_overfull_round(words@, node_count, 0, rounds as int)
                == spec_first_overfull_round(words@, node_count, round as int, rounds as int),
            decoded.rounds@.len() == round,
            forall|r: int|
                0 <= r < round ==> (#[trigger] decoded.rounds@[r])@ == spec_decoded_round(
                    words@,
                    spec_round_base(node_count as int, r),
                    spec_round_active(words@, node_count, r) as int,
                ),
        decreases round_count - round,
    {
        proof {
            lemma_round_fits(node_count as int, rounds as int, round as int);
        }
        let base = counter_base + round * stride;
        let active_word = words[base];
        if active_word > node_count as u64 {
            if active_word > usize::MAX as u64 {
                return Err(LanePackingDecodeError::ActiveCountOverflow { round });
            }
            return Err(
                LanePackingDecodeError::ActiveExceedsNodes {
                    round,
                    active: active_word,
                    node_count,
                },
            );
        }
        proof {
            lemma_overfull_step(words@, node_count, round as int, rounds as int);
        }
        let active = active_word as usize;
        let group_count = active / 32 + if active % 32 != 0 {
            1
        } else {
            0
        };
        assert(group_count == spec_group_count(active as int));
        proof {
            lemma_group_count_monotone(active as int, node_count as int);
        }
        let ghost expected = spec_decoded_round(words@, base as int, active as int);
        let mut groups: Vec<LanePackingGroupCounters> = Vec::new();
        let mut group: usize = 0;
        while group < group_count
            invariant
                group <= group_count,
                group_count == spec_group_count(active as int),
                group_count <= group_capacity,
                stride == 2 * group_capacity + 1,
                base + stride <= required,
                required <= words@.len(),
                active <= node_count,
                expected == spec_decoded_round(words@, base as int, active as int),
                groups@ == expected.take(group as int),
            decreases group_count - group,
        {
            let record = base + 1 + group * 2;
            let remaining = active - group * 32;
            let lanes: u64 = if remaining < 32 {
                remaining as u64
            } else {
                32
            };
            groups.push(
                LanePackingGroupCounters {
                    lanes,
                    work: words[record],
                    maximum_lane_work: words[record + 1],
                },
            );
            proof {
                assert(groups@ =~= expected.take(group + 1));
            }
            group = group + 1;
        }
        proof {
            assert(groups@ =~= expected);
        }
        decoded.rounds.push(groups);
        round = round + 1;
    }
    Ok(decoded)
}

} // verus!
