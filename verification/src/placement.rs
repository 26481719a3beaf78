//! Pool-lifetime ownership of logical processes by CPU workers.
//!
//! An ownership policy puts the LPs in an order and assigns each position a worker; a worker owns
//! the LPs assigned to it, in that order. `Modulo` keeps the given order and assigns by semantic
//! slot. `RouteLoad` ranks LPs by offered route load, heaviest first and ties by node identity,
//! then hands each in turn to the least-loaded worker (fewest owned LPs, then lowest index, on
//! ties). The placement tables then invert the ownership lists: for every LP slot, its owning
//! worker and its position there.

use vstd::prelude::*;
use crate::cpu::{
    route_offered_load, spec_flows_load, spec_saturate_u128, spec_tcp_segments_sized, CpuConfig,
    ExecutionError, StaticPartitionPolicy, StaticPlacement,
};
use crate::event::NodeId;
use crate::image::SimulationImage;
use crate::sort::{
    law_merge_sort_is_stable_sort, lemma_merge_sort_keeps, lemma_merge_sort_member, merge_sort,
    spec_merge_sort, SortKey,
};

verus! {

/// An LP as placement sees it: its semantic slot and its node identity.
#[derive(Clone, Copy, Debug, PartialEq, Eq, Structural)]
pub struct LpIdentity {
    pub lp_slot: usize,
    pub node: NodeId,
}

// ---------------------------------------------------------------------------------------------
// Ownership lists of an order and an assignment.
// ---------------------------------------------------------------------------------------------

/// How many of the first `upto` positions are assigned to worker `w`.
pub open spec fn spec_count(assign: Seq<usize>, upto: int, w: usize) -> int
    decreases upto,
{
    if upto <= 0 {
        0
    } else {
        spec_count(assign, upto - 1, w) + if assign[upto - 1] == w {
            1int
        } else {
            0int
        }
    }
}

/// Position `i`'s index in its worker's list: the earlier positions on the same worker.
pub open spec fn spec_rank(assign: Seq<usize>, i: int) -> int {
    spec_count(assign, i, assign[i])
}

/// The LPs among the first `upto` positions that are assigned to worker `w`, in order.
pub open spec fn spec_members(order: Seq<LpIdentity>, assign: Seq<usize>, upto: int, w: usize) -> Seq<
    LpIdentity,
>
    decreases upto,
{
    if upto <= 0 {
        Seq::empty()
    } else if assign[upto - 1] == w {
        spec_members(order, assign, upto - 1, w).push(order[upto - 1])
    } else {
        spec_members(order, assign, upto - 1, w)
    }
}

/// Each worker's ownership list.
pub open spec fn spec_owned(order: Seq<LpIdentity>, assign: Seq<usize>, workers: usize) -> Seq<
    Seq<LpIdentity>,
> {
    Seq::new(workers as nat, |w: int| spec_members(order, assign, order.len() as int, w as usize))
}

/// The contents of nested vectors.
pub open spec fn spec_lists(lists: Seq<Vec<LpIdentity>>) -> Seq<Seq<LpIdentity>> {
    lists.map_values(|list: Vec<LpIdentity>| list@)
}

proof fn lemma_members_len(order: Seq<LpIdentity>, assign: Seq<usize>, upto: int, w: usize)
    requires
        0 <= upto,
    ensures
        spec_members(order, assign, upto, w).len() == spec_count(assign, upto, w),
        spec_count(assign, upto, w) <= upto,
        0 <= spec_count(assign, upto, w),
    decreases upto,
{
    if upto > 0 {
        lemma_members_len(order, assign, upto - 1, w);
    }
}

/// Extending the assignment past `upto` changes nothing about its first `upto` positions.
proof fn lemma_prefix_stable(
    order: Seq<LpIdentity>,
    assign: Seq<usize>,
    longer: Seq<usize>,
    upto: int,
    w: usize,
)
    requires
        0 <= upto <= assign.len() <= longer.len(),
        longer.subrange(0, assign.len() as int) == assign,
    ensures
        spec_count(longer, upto, w) == spec_count(assign, upto, w),
        spec_members(order, longer, upto, w) == spec_members(order, assign, upto, w),
    decreases upto,
{
    if upto > 0 {
        assert(longer[upto - 1] == longer.subrange(0, assign.len() as int)[upto - 1]);
        lemma_prefix_stable(order, assign, longer, upto - 1, w);
    }
}

/// Position `i` is entry `spec_rank(assign, i)` of its worker's list.
proof fn lemma_member_at_rank(order: Seq<LpIdentity>, assign: Seq<usize>, upto: int, i: int)
    requires
        0 <= i < upto <= assign.len(),
    ensures
        0 <= spec_rank(assign, i) < spec_members(order, assign, upto, assign[i]).len(),
        spec_members(order, assign, upto, assign[i])[spec_rank(assign, i)] == order[i],
    decreases upto,
{
    lemma_members_len(order, assign, upto, assign[i]);
    lemma_members_len(order, assign, i, assign[i]);
    if i < upto - 1 {
        lemma_member_at_rank(order, assign, upto - 1, i);
    } else {
        lemma_members_len(order, assign, upto - 1, assign[i]);
    }
}

/// Every entry of a worker's list is some position assigned to it, at that position's rank.
proof fn lemma_rank_of_member(order: Seq<LpIdentity>, assign: Seq<usize>, upto: int, w: usize, k: int)
    requires
        0 <= upto <= assign.len(),
        0 <= k < spec_members(order, assign, upto, w).len(),
    ensures
        exists|i: int|
            0 <= i < upto && assign[i] == w && spec_rank(assign, i) == k && #[trigger] order[i]
                == spec_members(order, assign, upto, w)[k],
    decreases upto,
{
    lemma_members_len(order, assign, upto - 1, w);
    if assign[upto - 1] == w && k == spec_members(order, assign, upto - 1, w).len() {
        assert(spec_rank(assign, upto - 1) == k);
        assert(order[upto - 1] == spec_members(order, assign, upto, w)[k]);
    } else {
        lemma_rank_of_member(order, assign, upto - 1, w, k);
        let i = choose|i: int|
            0 <= i < upto - 1 && assign[i] == w && spec_rank(assign, i) == k && #[trigger] order[i]
                == spec_members(order, assign, upto - 1, w)[k];
        assert(order[i] == spec_members(order, assign, upto, w)[k]);
    }
}

// ---------------------------------------------------------------------------------------------
// Policies.
// ---------------------------------------------------------------------------------------------

/// Offered route load of LP slot `slot`; a slot past the image carries none.
pub open spec fn spec_lp_load(image: SimulationImage, slot: usize) -> u128 {
    if slot < image.nodes@.len() {
        spec_saturate_u128(spec_flows_load(image, image.flows@.len() as int, slot as int))
    } else {
        0
    }
}

/// An LP with its offered load, ranked heaviest first and then by node identity.
#[derive(Clone, Copy, Debug, PartialEq, Eq, Structural)]
pub struct LoadRank {
    pub load: u128,
    pub lp: LpIdentity,
}

impl SortKey for LoadRank {
    open spec fn spec_le(self, other: Self) -> bool {
        self.load > other.load || (self.load == other.load && self.lp.node.0 <= other.lp.node.0)
    }

    fn le_key(&self, other: &Self) -> (le: bool) {
        self.load > other.load || (self.load == other.load && self.lp.node.0 <= other.lp.node.0)
    }

    proof fn lemma_total(a: Self, b: Self) {
    }

    proof fn lemma_transitive(a: Self, b: Self, c: Self) {
    }
}

/// The LPs ranked for route-load placement.
pub open spec fn spec_ranked(lps: Seq<LpIdentity>, image: SimulationImage) -> Seq<LoadRank> {
    spec_merge_sort(
        lps.map_values(|lp: LpIdentity| LoadRank { load: spec_lp_load(image, lp.lp_slot), lp }),
    )
}

/// `a + b`, or `u128::MAX` where the sum does not fit.
pub open spec fn spec_sat_add(a: u128, b: u128) -> u128 {
    if a + b > u128::MAX {
        u128::MAX
    } else {
        (a + b) as u128
    }
}

/// Worker `a` is preferred to worker `b`: less offered load, or as much and fewer LPs.
pub open spec fn spec_prefers(loads: Seq<u128>, counts: Seq<int>, a: int, b: int) -> bool {
    loads[a] < loads[b] || (loads[a] == loads[b] && counts[a] < counts[b])
}

/// The preferred worker among the first `upto`; the lowest index wins a tie.
pub open spec fn spec_least_loaded(loads: Seq<u128>, counts: Seq<int>, upto: int) -> int
    decreases upto,
{
    if upto <= 1 {
        0
    } else {
        let best = spec_least_loaded(loads, counts, upto - 1);
        if spec_prefers(loads, counts, upto - 1, best) {
            upto - 1
        } else {
            best
        }
    }
}

/// Each worker's count of the first `upto` positions.
pub open spec fn spec_counts(assign: Seq<usize>, workers: usize) -> Seq<int> {
    Seq::new(workers as nat, |w: int| spec_count(assign, assign.len() as int, w as usize))
}

/// Greedy placement of the ranked LPs: the workers' accumulated loads and each position's worker.
pub open spec fn spec_greedy(ranked: Seq<LoadRank>, workers: usize) -> (Seq<u128>, Seq<usize>)
    decreases ranked.len(),
{
    if ranked.len() == 0 {
        (Seq::new(workers as nat, |w: int| 0u128), Seq::empty())
    } else {
        let (loads, assign) = spec_greedy(ranked.drop_last(), workers);
        let w = spec_least_loaded(loads, spec_counts(assign, workers), workers as int);
        (loads.update(w, spec_sat_add(loads[w], ranked.last().load)), assign.push(w as usize))
    }
}

/// The order a policy places LPs in.
pub open spec fn spec_order(lps: Seq<LpIdentity>, image: SimulationImage, config: CpuConfig) -> Seq<
    LpIdentity,
> {
    match config.static_partition {
        StaticPartitionPolicy::Modulo => lps,
        StaticPartitionPolicy::RouteLoad => spec_ranked(lps, image).map_values(|r: LoadRank| r.lp),
    }
}

/// The worker a policy assigns to each position of its order.
pub open spec fn spec_assignment(
    lps: Seq<LpIdentity>,
    image: SimulationImage,
    config: CpuConfig,
) -> Seq<usize> {
    match config.static_partition {
        StaticPartitionPolicy::Modulo => lps.map_values(
            |lp: LpIdentity| (lp.lp_slot % config.workers) as usize,
        ),
        StaticPartitionPolicy::RouteLoad => spec_greedy(spec_ranked(lps, image), config.workers).1,
    }
}

// ---------------------------------------------------------------------------------------------
// Building the lists.
// ---------------------------------------------------------------------------------------------

/// Hands each position of `order` to its assigned worker, recording its index there.
fn distribute(order: &Vec<LpIdentity>, assign: &Vec<usize>, workers: usize) -> (result: (
    Vec<Vec<LpIdentity>>,
    Vec<usize>,
))
    requires
        assign@.len() == order@.len(),
        forall|i: int| 0 <= i < assign@.len() ==> #[trigger] assign@[i] < workers,
    ensures
        spec_lists(result.0@) == spec_owned(order@, assign@, workers),
        result.1@.len() == order@.len(),
        forall|i: int| 0 <= i < order@.len() ==> #[trigger] result.1@[i] == spec_rank(assign@, i),
{
    let mut owned: Vec<Vec<LpIdentity>> = Vec::new();
    while owned.len() < workers
        invariant
            owned@.len() <= workers,
            forall|w: int| 0 <= w < owned@.len() ==> (#[trigger] owned@[w])@ == Seq::<LpIdentity>::empty(),
        decreases workers - owned@.len(),
    {
        owned.push(Vec::new());
    }
    let mut rank: Vec<usize> = Vec::new();
    let mut i: usize = 0;
    while i < order.len()
        invariant
            assign@.len() == order@.len(),
            forall|j: int| 0 <= j < assign@.len() ==> #[trigger] assign@[j] < workers,
            i <= order@.len(),
            owned@.len() == workers,
            forall|w: int|
                0 <= w < workers ==> (#[trigger] owned@[w])@ == spec_members(
                    order@,
                    assign@,
                    i as int,
                    w as usize,
                ),
            rank@.len() == i,
            forall|j: int| 0 <= j < i ==> #[trigger] rank@[j] == spec_rank(assign@, j),
        decreases order@.len() - i,
    {
        let w = assign[i];
        proof {
            lemma_members_len(order@, assign@, i as int, w);
        }
        rank.push(owned[w].len());
        owned[w].push(order[i]);
        proof {
            assert forall|v: int| 0 <= v < workers implies (#[trigger] owned@[v])@ == spec_members(
                order@,
                assign@,
                i + 1,
                v as usize,
            ) by {
            }
        }
        i = i + 1;
    }
    proof {
        assert(spec_lists(owned@) =~= spec_owned(order@, assign@, workers));
    }
    (owned, rank)
}

/// Each worker's count of `assign`'s positions, as machine integers.
pub open spec fn spec_counts_match(counts: Seq<usize>, assign: Seq<usize>, workers: usize) -> bool {
    &&& counts.len() == workers
    &&& forall|w: int| 0 <= w < workers ==> #[trigger] counts[w] == spec_count(assign, assign.len() as int, w as usize)
}

/// The preferred worker given each worker's load and count.
fn least_loaded(loads: &Vec<u128>, counts: &Vec<usize>, Ghost(assign): Ghost<Seq<usize>>) -> (best: usize)
    requires
        loads@.len() >= 1,
        spec_counts_match(counts@, assign, loads@.len() as usize),
    ensures
        best == spec_least_loaded(loads@, spec_counts(assign, loads@.len() as usize), loads@.len() as int),
        best < loads@.len(),
{
    let ghost counts_int = spec_counts(assign, loads@.len() as usize);
    let mut best: usize = 0;
    let mut v: usize = 1;
    while v < loads.len()
        invariant
            1 <= v <= loads@.len(),
            spec_counts_match(counts@, assign, loads@.len() as usize),
            counts_int == spec_counts(assign, loads@.len() as usize),
            best == spec_least_loaded(loads@, counts_int, v as int),
            best < v,
        decreases loads@.len() - v,
    {
        assert(counts_int[v as int] == counts@[v as int]);
        assert(counts_int[best as int] == counts@[best as int]);
        if loads[v] < loads[best] || (loads[v] == loads[best] && counts[v] < counts[best]) {
            best = v;
        }
        v = v + 1;
    }
    best
}

/// The greedy route-load assignment of the ranked LPs.
fn greedy_assignment(ranked: &Vec<LoadRank>, workers: usize) -> (assign: Vec<usize>)
    requires
        workers >= 1,
    ensures
        assign@ == spec_greedy(ranked@, workers).1,
        forall|i: int| 0 <= i < assign@.len() ==> #[trigger] assign@[i] < workers,
{
    let mut loads: Vec<u128> = Vec::new();
    let mut counts: Vec<usize> = Vec::new();
    while loads.len() < workers
        invariant
            loads@.len() == counts@.len() <= workers,
            forall|w: int| 0 <= w < loads@.len() ==> #[trigger] loads@[w] == 0,
            forall|w: int| 0 <= w < counts@.len() ==> #[trigger] counts@[w] == 0,
        decreases workers - loads@.len(),
    {
        loads.push(0);
        counts.push(0);
    }
    let mut assign: Vec<usize> = Vec::new();
    proof {
        assert(ranked@.take(0) =~= Seq::<LoadRank>::empty());
        assert(loads@ =~= spec_greedy(ranked@.take(0), workers).0);
    }
    let mut i: usize = 0;
    while i < ranked.len()
        invariant
            workers >= 1,
            i <= ranked@.len(),
            loads@.len() == workers,
            loads@ == spec_greedy(ranked@.take(i as int), workers).0,
            assign@ == spec_greedy(ranked@.take(i as int), workers).1,
            assign@.len() == i,
            forall|j: int| 0 <= j < assign@.len() ==> #[trigger] assign@[j] < workers,
            spec_counts_match(counts@, assign@, workers),
        decreases ranked@.len() - i,
    {
        let w = least_loaded(&loads, &counts, Ghost(assign@));
        let load = ranked[i].load;
        let raised = match loads[w].checked_add(load) {
            Some(total) => total,
            None => u128::MAX,
        };
        let ghost before = assign@;
        loads.set(w, raised);
        proof {
            lemma_members_len(Seq::<LpIdentity>::empty(), before, i as int, w);
        }
        let count = counts[w] + 1;
        counts.set(w, count);
        assign.push(w);
        proof {
            let prefix = ranked@.take(i + 1);
            assert(prefix.drop_last() =~= ranked@.take(i as int));
            assert(prefix.last() == ranked@[i as int]);
            assert forall|v: int| 0 <= v < workers implies #[trigger] counts@[v] == spec_count(
                assign@,
                assign@.len() as int,
                v as usize,
            ) by {
                assert(assign@.subrange(0, before.len() as int) =~= before);
                lemma_prefix_stable(Seq::<LpIdentity>::empty(), before, assign@, i as int, v as usize);
            }
        }
        i = i + 1;
    }
    proof {
        assert(ranked@.take(ranked@.len() as int) =~= ranked@);
    }
    assign
}

// ---------------------------------------------------------------------------------------------
// Placement tables.
// ---------------------------------------------------------------------------------------------

/// Every LP names a slot below `n`.
pub open spec fn spec_slots_known(lps: Seq<LpIdentity>, n: int) -> bool {
    forall|i: int| 0 <= i < lps.len() ==> (#[trigger] lps[i]).lp_slot < n
}

/// Some LP names slot `s`.
pub open spec fn spec_names_slot(lps: Seq<LpIdentity>, s: int) -> bool {
    exists|i: int| 0 <= i < lps.len() && (#[trigger] lps[i]).lp_slot == s
}

/// Every slot below `n` is named by some LP.
pub open spec fn spec_covers(lps: Seq<LpIdentity>, n: int) -> bool {
    forall|s: int| 0 <= s < n ==> #[trigger] spec_names_slot(lps, s)
}

/// The node of the first LP of `list` whose slot is not below `n`.
pub open spec fn spec_first_unknown_in(list: Seq<LpIdentity>, n: int) -> Option<NodeId>
    decreases list.len(),
{
    if list.len() == 0 {
        None
    } else if list[0].lp_slot >= n {
        Some(list[0].node)
    } else {
        spec_first_unknown_in(list.drop_first(), n)
    }
}

/// The node of the first LP, walking the first `upto` lists in worker order, whose slot is not
/// below `n`.
pub open spec fn spec_first_unknown(lists: Seq<Seq<LpIdentity>>, upto: int, n: int) -> Option<NodeId>
    decreases upto,
{
    if upto <= 0 {
        None
    } else {
        match spec_first_unknown(lists, upto - 1, n) {
            Some(node) => Some(node),
            None => spec_first_unknown_in(lists[upto - 1], n),
        }
    }
}

proof fn lemma_first_unknown_in_skip(list: Seq<LpIdentity>, n: int, k: int)
    requires
        0 <= k <= list.len(),
        forall|j: int| 0 <= j < k ==> (#[trigger] list[j]).lp_slot < n,
    ensures
        spec_first_unknown_in(list, n) == spec_first_unknown_in(list.subrange(k, list.len() as int), n),
    decreases k,
{
    if k > 0 {
        assert(list[0].lp_slot < n);
        lemma_first_unknown_in_skip(list.drop_first(), n, k - 1);
        assert(list.drop_first().subrange(k - 1, list.drop_first().len() as int) =~= list.subrange(
            k,
            list.len() as int,
        ));
    } else {
        assert(list.subrange(0, list.len() as int) =~= list);
    }
}

proof fn lemma_first_unknown_in_none(list: Seq<LpIdentity>, n: int)
    ensures
        spec_first_unknown_in(list, n) is None <==> forall|j: int|
            0 <= j < list.len() ==> (#[trigger] list[j]).lp_slot < n,
    decreases list.len(),
{
    if list.len() > 0 {
        lemma_first_unknown_in_none(list.drop_first(), n);
        if list[0].lp_slot < n {
            assert forall|j: int| 0 <= j < list.len() && (forall|m: int|
                0 <= m < list.drop_first().len() ==> (#[trigger] list.drop_first()[m]).lp_slot < n)
                implies (#[trigger] list[j]).lp_slot < n by {
                if j > 0 {
                    assert(list[j] == list.drop_first()[j - 1]);
                }
            }
            if spec_first_unknown_in(list.drop_first(), n) is Some {
                let m = choose|m: int|
                    0 <= m < list.drop_first().len() && !((#[trigger] list.drop_first()[m]).lp_slot < n);
                assert(list[m + 1] == list.drop_first()[m]);
            }
        }
    }
}

proof fn lemma_first_unknown_none(lists: Seq<Seq<LpIdentity>>, upto: int, n: int)
    requires
        0 <= upto <= lists.len(),
    ensures
        spec_first_unknown(lists, upto, n) is None <==> forall|w: int, k: int|
            0 <= w < upto && 0 <= k < lists[w].len() ==> (#[trigger] lists[w][k]).lp_slot < n,
    decreases upto,
{
    if upto > 0 {
        lemma_first_unknown_none(lists, upto - 1, n);
        lemma_first_unknown_in_none(lists[upto - 1], n);
    }
}

proof fn lemma_first_unknown_settled(lists: Seq<Seq<LpIdentity>>, upto: int, later: int, n: int)
    requires
        0 <= upto <= later,
        spec_first_unknown(lists, upto, n) is Some,
    ensures
        spec_first_unknown(lists, later, n) == spec_first_unknown(lists, upto, n),
    decreases later - upto,
{
    if later > upto {
        lemma_first_unknown_settled(lists, upto, later - 1, n);
    }
}

/// The node of the first LP, in worker then list order, whose slot is not below `n`.
fn first_unknown(owned: &Vec<Vec<LpIdentity>>, n: usize) -> (found: Option<NodeId>)
    ensures
        found == spec_first_unknown(spec_lists(owned@), owned@.len() as int, n as int),
{
    let ghost lists = spec_lists(owned@);
    let mut w: usize = 0;
    while w < owned.len()
        invariant
            w <= owned@.len(),
            lists == spec_lists(owned@),
            spec_first_unknown(lists, w as int, n as int) is None,
        decreases owned@.len() - w,
    {
        assert(lists[w as int] == owned@[w as int]@);
        let mut k: usize = 0;
        while k < owned[w].len()
            invariant
                w < owned@.len(),
                k <= owned@[w as int]@.len(),
                lists == spec_lists(owned@),
                lists[w as int] == owned@[w as int]@,
                spec_first_unknown(lists, w as int, n as int) is None,
                forall|j: int| 0 <= j < k ==> (#[trigger] lists[w as int][j]).lp_slot < n,
            decreases owned@[w as int]@.len() - k,
        {
            let lp = owned[w][k];
            if lp.lp_slot >= n {
                proof {
                    lemma_first_unknown_in_skip(lists[w as int], n as int, k as int);
                    assert(lists[w as int].subrange(k as int, lists[w as int].len() as int)[0] == lp);
                    assert(spec_first_unknown(lists, w + 1, n as int) == Some(lp.node));
                    lemma_first_unknown_settled(lists, w + 1, owned@.len() as int, n as int);
                }
                return Some(lp.node);
            }
            k = k + 1;
        }
        proof {
            lemma_first_unknown_in_skip(lists[w as int], n as int, k as int);
            assert(lists[w as int].subrange(k as int, lists[w as int].len() as int).len() == 0);
        }
        w = w + 1;
    }
    None
}

/// No position after `j` and before `upto` names position `j`'s slot.
pub open spec fn spec_last_writer(order: Seq<LpIdentity>, upto: int, j: int) -> bool {
    forall|m: int| j < m < upto ==> (#[trigger] order[m]).lp_slot != order[j].lp_slot
}

proof fn lemma_names_step(order: Seq<LpIdentity>, i: int, s: int)
    requires
        0 <= i < order.len(),
    ensures
        spec_names_slot(order.take(i + 1), s) == (spec_names_slot(order.take(i), s) || order[i].lp_slot
            == s),
{
    let before = order.take(i);
    let after = order.take(i + 1);
    if order[i].lp_slot == s {
        assert(after[i] == order[i]);
    }
    if spec_names_slot(before, s) {
        let j = choose|j: int| 0 <= j < before.len() && (#[trigger] before[j]).lp_slot == s;
        assert(after[j] == before[j]);
    }
    if spec_names_slot(after, s) && order[i].lp_slot != s {
        let j = choose|j: int| 0 <= j < after.len() && (#[trigger] after[j]).lp_slot == s;
        assert(before[j] == after[j]);
    }
}

/// The owning worker and list index of each slot, written position by position; a slot no
/// position names stays `usize::MAX`. When several positions name a slot, the last one wins.
fn placement_tables(
    order: &Vec<LpIdentity>,
    assign: &Vec<usize>,
    rank: &Vec<usize>,
    n: usize,
) -> (tables: (Vec<usize>, Vec<usize>))
    requires
        assign@.len() == order@.len(),
        rank@.len() == order@.len(),
        spec_slots_known(order@, n as int),
        forall|i: int| 0 <= i < order@.len() ==> #[trigger] assign@[i] != usize::MAX,
        forall|i: int| 0 <= i < order@.len() ==> #[trigger] rank@[i] != usize::MAX,
    ensures
        tables.0@.len() == n,
        tables.1@.len() == n,
        forall|s: int|
            0 <= s < n ==> ((#[trigger] tables.0@[s] == usize::MAX) <==> !spec_names_slot(order@, s)),
        forall|s: int|
            0 <= s < n ==> ((#[trigger] tables.1@[s] == usize::MAX) <==> !spec_names_slot(order@, s)),
        forall|i: int|
            0 <= i < order@.len() && #[trigger] spec_last_writer(order@, order@.len() as int, i)
                ==> tables.0@[order@[i].lp_slot as int] == assign@[i] && tables.1@[order@[i].lp_slot as int]
                == rank@[i],
{
    let mut workers_of: Vec<usize> = Vec::new();
    let mut slots_of: Vec<usize> = Vec::new();
    while workers_of.len() < n
        invariant
            workers_of@.len() == slots_of@.len() <= n,
            forall|s: int| 0 <= s < workers_of@.len() ==> #[trigger] workers_of@[s] == usize::MAX,
            forall|s: int| 0 <= s < slots_of@.len() ==> #[trigger] slots_of@[s] == usize::MAX,
        decreases n - workers_of@.len(),
    {
        workers_of.push(usize::MAX);
        slots_of.push(usize::MAX);
    }
    let mut i: usize = 0;
    while i < order.len()
        invariant
            assign@.len() == order@.len(),
            rank@.len() == order@.len(),
            spec_slots_known(order@, n as int),
            forall|j: int| 0 <= j < order@.len() ==> #[trigger] assign@[j] != usize::MAX,
            forall|j: int| 0 <= j < order@.len() ==> #[trigger] rank@[j] != usize::MAX,
            i <= order@.len(),
            workers_of@.len() == n,
            slots_of@.len() == n,
            forall|s: int|
                0 <= s < n ==> ((#[trigger] workers_of@[s] == usize::MAX) <==> !spec_names_slot(
                    order@.take(i as int),
                    s,
                )),
            forall|s: int|
                0 <= s < n ==> ((#[trigger] slots_of@[s] == usize::MAX) <==> !spec_names_slot(
                    order@.take(i as int),
                    s,
                )),
            forall|j: int|
                0 <= j < i && #[trigger] spec_last_writer(order@, i as int, j) ==> workers_of@[order@[j].lp_slot as int]
                    == assign@[j] && slots_of@[order@[j].lp_slot as int] == rank@[j],
        decreases order@.len() - i,
    {
        let slot = order[i].lp_slot;
        assert(order@[i as int].lp_slot < n);
        let ghost old_workers = workers_of@;
        let ghost old_slots = slots_of@;
        workers_of.set(slot, assign[i]);
        slots_of.set(slot, rank[i]);
        proof {
            assert forall|s: int| 0 <= s < n implies ((#[trigger] workers_of@[s] == usize::MAX)
                <==> !spec_names_slot(order@.take(i + 1), s)) by {
                lemma_names_step(order@, i as int, s);
                if s != slot {
                    assert(workers_of@[s] == old_workers[s]);
                }
            }
            assert forall|s: int| 0 <= s < n implies ((#[trigger] slots_of@[s] == usize::MAX)
                <==> !spec_names_slot(order@.take(i + 1), s)) by {
                lemma_names_step(order@, i as int, s);
                if s != slot {
                    assert(slots_of@[s] == old_slots[s]);
                }
            }
            assert forall|j: int| 0 <= j < i + 1 && #[trigger] spec_last_writer(order@, i + 1, j)
                implies workers_of@[order@[j].lp_slot as int] == assign@[j]
                && slots_of@[order@[j].lp_slot as int] == rank@[j] by {
                if j < i {
                    assert(order@[i as int].lp_slot != order@[j].lp_slot);
                    assert(spec_last_writer(order@, i as int, j));
                }
            }
        }
        i = i + 1;
    }
    proof {
        assert(order@.take(order@.len() as int) =~= order@);
    }
    (workers_of, slots_of)
}

/// Whether some slot is left unfilled in either table.
fn first_vacant(workers_of: &Vec<usize>, slots_of: &Vec<usize>) -> (vacant: bool)
    requires
        workers_of@.len() == slots_of@.len(),
    ensures
        vacant <==> exists|s: int|
            0 <= s < workers_of@.len() && (#[trigger] workers_of@[s] == usize::MAX
                || slots_of@[s] == usize::MAX),
{
    let mut s: usize = 0;
    while s < workers_of.len()
        invariant
            workers_of@.len() == slots_of@.len(),
            s <= workers_of@.len(),
            forall|t: int| 0 <= t < s ==> !(#[trigger] workers_of@[t] == usize::MAX || slots_of@[t] == usize::MAX),
        decreases workers_of@.len() - s,
    {
        if workers_of[s] == usize::MAX || slots_of[s] == usize::MAX {
            return true;
        }
        s = s + 1;
    }
    false
}

/// `n` positions naming every slot below `n` name each slot once.
proof fn lemma_covering_slots_distinct(order: Seq<LpIdentity>, n: int)
    requires
        order.len() == n,
        spec_slots_known(order, n),
        spec_covers(order, n),
    ensures
        forall|i: int, j: int|
            0 <= i < n && 0 <= j < n && i != j ==> (#[trigger] order[i]).lp_slot != (#[trigger] order[j]).lp_slot,
{
    broadcast use vstd::seq_lib::seq_to_set_is_finite;
    let slots = order.map_values(|lp: LpIdentity| lp.lp_slot as int);
    let range = vstd::set_lib::set_int_range(0, n);
    vstd::set_lib::lemma_int_range(0, n);
    assert(range.subset_of(slots.to_set())) by {
        assert forall|s: int| range.contains(s) implies slots.to_set().contains(s) by {
            assert(spec_names_slot(order, s));
            let i = choose|i: int| 0 <= i < order.len() && (#[trigger] order[i]).lp_slot == s;
            assert(slots[i] == s);
        }
    }
    vstd::set_lib::lemma_len_subset(range, slots.to_set());
    slots.lemma_cardinality_of_set();
    slots.lemma_no_dup_set_cardinality();
    assert forall|i: int, j: int|
        0 <= i < n && 0 <= j < n && i != j implies (#[trigger] order[i]).lp_slot != (#[trigger] order[j]).lp_slot by {
        assert(slots[i] != slots[j]);
    }
}

// ---------------------------------------------------------------------------------------------
// Ownership.
// ---------------------------------------------------------------------------------------------

/// Each worker's ownership list under the configured policy.
pub open spec fn spec_placed_lists(lps: Seq<LpIdentity>, image: SimulationImage, config: CpuConfig) -> Seq<
    Seq<LpIdentity>,
> {
    spec_owned(spec_order(lps, image, config), spec_assignment(lps, image, config), config.workers)
}

/// The placement tables invert the ownership lists: every listed LP's slot points back at its
/// worker and index, and every slot below `n` points at a listed LP of that slot.
pub open spec fn spec_inverts(
    lists: Seq<Seq<LpIdentity>>,
    owner_workers: Seq<usize>,
    owner_slots: Seq<usize>,
    n: int,
) -> bool {
    &&& owner_workers.len() == n
    &&& owner_slots.len() == n
    &&& forall|w: int, k: int|
        0 <= w < lists.len() && 0 <= k < lists[w].len() ==> {
            let slot = (#[trigger] lists[w][k]).lp_slot as int;
            &&& slot < n
            &&& owner_workers[slot] == w
            &&& owner_slots[slot] == k
        }
    &&& forall|s: int|
        0 <= s < n ==> {
            let w = (#[trigger] owner_workers[s]) as int;
            let k = owner_slots[s] as int;
            &&& w < lists.len()
            &&& k < lists[w].len()
            &&& lists[w][k].lp_slot == s
        }
}

/// The policy's order holds the same LPs as the input.
proof fn lemma_order_members(lps: Seq<LpIdentity>, image: SimulationImage, config: CpuConfig)
    ensures
        spec_order(lps, image, config).len() == lps.len(),
        forall|i: int|
            0 <= i < lps.len() ==> lps.contains(#[trigger] spec_order(lps, image, config)[i]),
        forall|j: int| 0 <= j < lps.len() ==> spec_order(lps, image, config).contains(#[trigger] lps[j]),
{
    let order = spec_order(lps, image, config);
    if config.static_partition is RouteLoad {
        let keyed = lps.map_values(|lp: LpIdentity| LoadRank { load: spec_lp_load(image, lp.lp_slot), lp });
        let sorted = spec_merge_sort(keyed);
        law_merge_sort_is_stable_sort(keyed);
        assert(order =~= sorted.map_values(|r: LoadRank| r.lp));
        assert forall|i: int| 0 <= i < lps.len() implies lps.contains(#[trigger] order[i]) by {
            lemma_merge_sort_member(keyed, i);
            let j = choose|j: int| 0 <= j < keyed.len() && keyed[j] == sorted[i];
            assert(lps[j] == keyed[j].lp);
            assert(lps[j] == order[i]);
        }
        assert forall|j: int| 0 <= j < lps.len() implies order.contains(#[trigger] lps[j]) by {
            lemma_merge_sort_keeps(keyed, j);
            let i = choose|i: int| 0 <= i < sorted.len() && sorted[i] == keyed[j];
            assert(order[i] == sorted[i].lp);
            assert(order[i] == lps[j]);
        }
    } else {
        assert forall|i: int| 0 <= i < lps.len() implies lps.contains(#[trigger] order[i]) by {
            assert(lps[i] == order[i]);
        }
        assert forall|j: int| 0 <= j < lps.len() implies order.contains(#[trigger] lps[j]) by {
            assert(order[j] == lps[j]);
        }
    }
}

/// The same LPs name the same slots.
proof fn lemma_same_members_slots(lps: Seq<LpIdentity>, order: Seq<LpIdentity>, n: int)
    requires
        order.len() == lps.len(),
        forall|i: int| 0 <= i < lps.len() ==> lps.contains(#[trigger] order[i]),
        forall|j: int| 0 <= j < lps.len() ==> order.contains(#[trigger] lps[j]),
    ensures
        spec_slots_known(order, n) == spec_slots_known(lps, n),
        spec_covers(order, n) == spec_covers(lps, n),
{
    if spec_slots_known(lps, n) {
        assert forall|i: int| 0 <= i < order.len() implies (#[trigger] order[i]).lp_slot < n by {
            assert(lps.contains(order[i]));
            let j = choose|j: int| 0 <= j < lps.len() && lps[j] == order[i];
            assert(lps[j].lp_slot < n);
        }
    }
    if spec_slots_known(order, n) {
        assert forall|j: int| 0 <= j < lps.len() implies (#[trigger] lps[j]).lp_slot < n by {
            assert(order.contains(lps[j]));
            let i = choose|i: int| 0 <= i < order.len() && order[i] == lps[j];
            assert(order[i].lp_slot < n);
        }
    }
    if spec_covers(lps, n) {
        assert forall|s: int| 0 <= s < n implies #[trigger] spec_names_slot(order, s) by {
            assert(spec_names_slot(lps, s));
            let j = choose|j: int| 0 <= j < lps.len() && (#[trigger] lps[j]).lp_slot == s;
            assert(order.contains(lps[j]));
            let i = choose|i: int| 0 <= i < order.len() && order[i] == lps[j];
            assert(order[i].lp_slot == s);
        }
    }
    if spec_covers(order, n) {
        assert forall|s: int| 0 <= s < n implies #[trigger] spec_names_slot(lps, s) by {
            assert(spec_names_slot(order, s));
            let i = choose|i: int| 0 <= i < order.len() && (#[trigger] order[i]).lp_slot == s;
            assert(lps.contains(order[i]));
            let j = choose|j: int| 0 <= j < lps.len() && lps[j] == order[i];
            assert(lps[j].lp_slot == s);
        }
    }
}

/// The listed LPs all name known slots exactly when the order's LPs do.
proof fn lemma_lists_slots_known(order: Seq<LpIdentity>, assign: Seq<usize>, workers: usize, n: int)
    requires
        assign.len() == order.len(),
        forall|i: int| 0 <= i < assign.len() ==> #[trigger] assign[i] < workers,
    ensures
        spec_first_unknown(spec_owned(order, assign, workers), workers as int, n) is None
            <==> spec_slots_known(order, n),
{
    let lists = spec_owned(order, assign, workers);
    let len = order.len() as int;
    lemma_first_unknown_none(lists, workers as int, n);
    if spec_slots_known(order, n) {
        assert forall|w: int, k: int| 0 <= w < workers && 0 <= k < lists[w].len()
            implies (#[trigger] lists[w][k]).lp_slot < n by {
            lemma_rank_of_member(order, assign, len, w as usize, k);
            let i = choose|i: int|
                0 <= i < len && assign[i] == w as usize && spec_rank(assign, i) == k
                    && #[trigger] order[i] == spec_members(order, assign, len, w as usize)[k];
            assert(order[i].lp_slot < n);
        }
    } else {
        let i = choose|i: int| 0 <= i < order.len() && !((#[trigger] order[i]).lp_slot < n);
        lemma_member_at_rank(order, assign, len, i);
        let w = assign[i] as int;
        let k = spec_rank(assign, i);
        assert(lists[w][k] == order[i]);
    }
}

/// Exact tables over `n` distinct covering positions invert the ownership lists.
proof fn lemma_tables_invert(
    order: Seq<LpIdentity>,
    assign: Seq<usize>,
    rank: Seq<usize>,
    workers: usize,
    owner_workers: Seq<usize>,
    owner_slots: Seq<usize>,
    n: int,
)
    requires
        order.len() == n,
        assign.len() == n,
        rank.len() == n,
        forall|i: int| 0 <= i < n ==> #[trigger] assign[i] < workers,
        forall|i: int| 0 <= i < n ==> #[trigger] rank[i] == spec_rank(assign, i),
        spec_slots_known(order, n),
        spec_covers(order, n),
        owner_workers.len() == n,
        owner_slots.len() == n,
        forall|i: int|
            0 <= i < n && #[trigger] spec_last_writer(order, n, i) ==> owner_workers[order[i].lp_slot as int]
                == assign[i] && owner_slots[order[i].lp_slot as int] == rank[i],
    ensures
        spec_inverts(spec_owned(order, assign, workers), owner_workers, owner_slots, n),
{
    let lists = spec_owned(order, assign, workers);
    lemma_covering_slots_distinct(order, n);
    assert forall|i: int| 0 <= i < n implies #[trigger] spec_last_writer(order, n, i) by {
        assert forall|m: int| i < m < n implies (#[trigger] order[m]).lp_slot != order[i].lp_slot by {
            assert(order[m].lp_slot != order[i].lp_slot);
        }
    }
    assert forall|w: int, k: int| 0 <= w < lists.len() && 0 <= k < lists[w].len() implies {
        let slot = (#[trigger] lists[w][k]).lp_slot as int;
        &&& slot < n
        &&& owner_workers[slot] == w
        &&& owner_slots[slot] == k
    } by {
        lemma_rank_of_member(order, assign, n, w as usize, k);
        let i = choose|i: int|
            0 <= i < n && assign[i] == w as usize && spec_rank(assign, i) == k
                && #[trigger] order[i] == spec_members(order, assign, n, w as usize)[k];
        assert(spec_last_writer(order, n, i));
    }
    assert forall|s: int| 0 <= s < n implies {
        let w = (#[trigger] owner_workers[s]) as int;
        let k = owner_slots[s] as int;
        &&& w < lists.len()
        &&& k < lists[w].len()
        &&& lists[w][k].lp_slot == s
    } by {
        assert(spec_names_slot(order, s));
        let i = choose|i: int| 0 <= i < order.len() && (#[trigger] order[i]).lp_slot == s;
        assert(spec_last_writer(order, n, i));
        lemma_member_at_rank(order, assign, n, i);
    }
}

/// The policy's order and its assignment, built.
fn policy_order(lps: &Vec<LpIdentity>, image: &SimulationImage, config: CpuConfig) -> (placed: (
    Vec<LpIdentity>,
    Vec<usize>,
))
    requires
        config.workers >= 1,
        config.static_partition is RouteLoad ==> spec_tcp_segments_sized(*image),
    ensures
        placed.0@ == spec_order(lps@, *image, config),
        placed.1@ == spec_assignment(lps@, *image, config),
        placed.1@.len() == placed.0@.len(),
        forall|i: int| 0 <= i < placed.1@.len() ==> #[trigger] placed.1@[i] < config.workers,
{
    let workers = config.workers;
    match config.static_partition {
        StaticPartitionPolicy::Modulo => {
            let mut order: Vec<LpIdentity> = Vec::new();
            let mut assign: Vec<usize> = Vec::new();
            let mut i: usize = 0;
            while i < lps.len()
                invariant
                    workers == config.workers >= 1,
                    i <= lps@.len(),
                    order@ == lps@.take(i as int),
                    assign@ == lps@.take(i as int).map_values(
                        |lp: LpIdentity| (lp.lp_slot % workers) as usize,
                    ),
                decreases lps@.len() - i,
            {
                order.push(lps[i]);
                assign.push(lps[i].lp_slot % workers);
                proof {
                    assert(order@ =~= lps@.take(i + 1));
                    assert(assign@ =~= lps@.take(i + 1).map_values(
                        |lp: LpIdentity| (lp.lp_slot % workers) as usize,
                    ));
                }
                i = i + 1;
            }
            proof {
                assert(lps@.take(lps@.len() as int) =~= lps@);
            }
            (order, assign)
        },
        StaticPartitionPolicy::RouteLoad => {
            let loads = route_offered_load(image);
            let mut keyed: Vec<LoadRank> = Vec::new();
            let mut i: usize = 0;
            while i < lps.len()
                invariant
                    i <= lps@.len(),
                    loads@.len() == image.nodes@.len(),
                    forall|lp: int|
                        0 <= lp < loads@.len() ==> #[trigger] loads@[lp] == spec_saturate_u128(
                            spec_flows_load(*image, image.flows@.len() as int, lp),
                        ),
                    keyed@ == lps@.take(i as int).map_values(
                        |lp: LpIdentity| LoadRank { load: spec_lp_load(*image, lp.lp_slot), lp },
                    ),
                decreases lps@.len() - i,
            {
                let lp = lps[i];
                let load = if lp.lp_slot < loads.len() {
                    loads[lp.lp_slot]
                } else {
                    0
                };
                keyed.push(LoadRank { load, lp });
                proof {
                    assert(keyed@ =~= lps@.take(i + 1).map_values(
                        |lp: LpIdentity| LoadRank { load: spec_lp_load(*image, lp.lp_slot), lp },
                    ));
                }
                i = i + 1;
            }
            proof {
                assert(lps@.take(lps@.len() as int) =~= lps@);
            }
            let ranked = merge_sort(&keyed);
            let assign = greedy_assignment(&ranked, workers);
            proof {
                law_merge_sort_is_stable_sort(keyed@);
                lemma_greedy_len(ranked@, workers);
            }
            let mut order: Vec<LpIdentity> = Vec::new();
            let mut k: usize = 0;
            while k < ranked.len()
                invariant
                    k <= ranked@.len(),
                    order@ == ranked@.take(k as int).map_values(|r: LoadRank| r.lp),
                decreases ranked@.len() - k,
            {
                order.push(ranked[k].lp);
                proof {
                    assert(order@ =~= ranked@.take(k + 1).map_values(|r: LoadRank| r.lp));
                }
                k = k + 1;
            }
            proof {
                assert(ranked@.take(ranked@.len() as int) =~= ranked@);
            }
            (order, assign)
        },
    }
}

proof fn lemma_least_loaded_range(loads: Seq<u128>, counts: Seq<int>, upto: int)
    requires
        upto >= 1,
    ensures
        0 <= spec_least_loaded(loads, counts, upto) < upto,
    decreases upto,
{
    if upto > 1 {
        lemma_least_loaded_range(loads, counts, upto - 1);
    }
}

proof fn lemma_greedy_len(ranked: Seq<LoadRank>, workers: usize)
    requires
        workers >= 1,
    ensures
        spec_greedy(ranked, workers).1.len() == ranked.len(),
        spec_greedy(ranked, workers).0.len() == workers,
    decreases ranked.len(),
{
    if ranked.len() > 0 {
        lemma_greedy_len(ranked.drop_last(), workers);
        let (loads, assign) = spec_greedy(ranked.drop_last(), workers);
        lemma_least_loaded_range(loads, spec_counts(assign, workers), workers as int);
    }
}

/// Pool-lifetime ownership: each worker's LPs under the configured policy, and the tables that
/// locate every LP slot. An LP whose slot is not below the LP count is refused with its node
/// (the first such LP in worker order); a slot no LP names is refused as node 0.
pub fn partition_static_ownership(
    lps: Vec<LpIdentity>,
    image: &SimulationImage,
    config: CpuConfig,
) -> (result: Result<(Vec<Vec<LpIdentity>>, StaticPlacement), ExecutionError>)
    requires
        config.workers >= 1,
        config.static_partition is RouteLoad ==> spec_tcp_segments_sized(*image),
    ensures
        !spec_slots_known(lps@, lps@.len() as int) ==> {
            let first = spec_first_unknown(
                spec_placed_lists(lps@, *image, config),
                config.workers as int,
                lps@.len() as int,
            );
            &&& first is Some
            &&& result == Err::<(Vec<Vec<LpIdentity>>, StaticPlacement), ExecutionError>(
                ExecutionError::UnknownNode(first->Some_0),
            )
        },
        spec_slots_known(lps@, lps@.len() as int) && !spec_covers(lps@, lps@.len() as int)
            ==> result == Err::<(Vec<Vec<LpIdentity>>, StaticPlacement), ExecutionError>(
            ExecutionError::UnknownNode(NodeId(0)),
        ),
        spec_slots_known(lps@, lps@.len() as int) && spec_covers(lps@, lps@.len() as int)
            ==> result is Ok,
        result matches Ok((lists, placement)) ==> {
            &&& spec_lists(lists@) == spec_placed_lists(lps@, *image, config)
            &&& placement.workers == config.workers
            &&& spec_inverts(
                spec_lists(lists@),
                placement.owner_workers@,
                placement.owner_slots@,
                lps@.len() as int,
            )
        },
{
    let workers = config.workers;
    let n = lps.len();
    let (order, assign) = policy_order(&lps, image, config);
    proof {
        lemma_order_members(lps@, *image, config);
        lemma_same_members_slots(lps@, order@, n as int);
        lemma_lists_slots_known(order@, assign@, workers, n as int);
    }
    let (owned, rank) = distribute(&order, &assign, workers);
    proof {
        assert(spec_lists(owned@).len() == owned@.len());
        assert(owned@.len() == workers);
        assert(spec_lists(owned@) == spec_placed_lists(lps@, *image, config));
    }
    match first_unknown(&owned, n) {
        Some(node) => {
            return Err(ExecutionError::UnknownNode(node));
        },
        None => {},
    }
    proof {
        assert forall|i: int| 0 <= i < order@.len() implies #[trigger] rank@[i] != usize::MAX by {
            lemma_member_at_rank(order@, assign@, n as int, i);
            lemma_members_len(order@, assign@, n as int, assign@[i]);
        }
    }
    let (owner_workers, owner_slots) = placement_tables(&order, &assign, &rank, n);
    if first_vacant(&owner_workers, &owner_slots) {
        proof {
            let s = choose|s: int|
                0 <= s < owner_workers@.len() && (#[trigger] owner_workers@[s] == usize::MAX
                    || owner_slots@[s] == usize::MAX);
            assert(0 <= s < n);
            if owner_workers@[s] == usize::MAX {
                assert(!spec_names_slot(order@, s));
            } else {
                assert(owner_slots@[s] == usize::MAX);
                assert(!spec_names_slot(order@, s));
            }
            assert(!spec_covers(order@, n as int));
        }
        return Err(ExecutionError::UnknownNode(NodeId(0)));
    }
    proof {
        assert forall|s: int| 0 <= s < n implies #[trigger] spec_names_slot(order@, s) by {
            assert(owner_workers@[s] != usize::MAX);
        }
        lemma_tables_invert(order@, assign@, rank@, workers, owner_workers@, owner_slots@, n as int);
    }
    Ok((owned, StaticPlacement { workers, owner_workers, owner_slots }))
}

/// Initial ownership of the owned-worker pool: LP slot modulo the worker count, in input order.
pub fn partition_initial_ownership(lps: Vec<LpIdentity>, workers: usize) -> (lists: Vec<Vec<LpIdentity>>)
    requires
        workers >= 1,
    ensures
        spec_lists(lists@) == spec_owned(
            lps@,
            lps@.map_values(|lp: LpIdentity| (lp.lp_slot % workers) as usize),
            workers,
        ),
{
    let mut assign: Vec<usize> = Vec::new();
    let mut i: usize = 0;
    while i < lps.len()
        invariant
            workers >= 1,
            i <= lps@.len(),
            assign@ == lps@.take(i as int).map_values(|lp: LpIdentity| (lp.lp_slot % workers) as usize),
        decreases lps@.len() - i,
    {
        assign.push(lps[i].lp_slot % workers);
        proof {
            assert(assign@ =~= lps@.take(i + 1).map_values(
                |lp: LpIdentity| (lp.lp_slot % workers) as usize,
            ));
        }
        i = i + 1;
    }
    proof {
        assert(lps@.take(lps@.len() as int) =~= lps@);
    }
    let (lists, _rank) = distribute(&lps, &assign, workers);
    lists
}

} // verus!
