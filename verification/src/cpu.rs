//! Deterministic scheduling structures of the CPU safe-horizon executor.
//!
//! The worker pool itself (threads, channels, wall clocks) stays outside the library. What is
//! here decides: the pool configuration check, each worker's indexed LP frontier, round
//! partitioning into straggler and bulk chunks, pool-lifetime LP placement by offered route load,
//! the radix byte schedule of remote envelopes, and which worker failure is reported.

use vstd::prelude::*;
use crate::event::{Event, EventKey, NodeId};
use crate::image::{FlowGeneratorKind, SimulationImage};
use crate::sort::{merge_sort, spec_merge_sort, SortKey};

verus! {

/// LP count per dispatch request.
///
/// `Static` computes `ceil(active_bulk_LPs / bulk_workers)` each round. `Fixed` uses the supplied
/// chunk size and lets a worker request another chunk after completing its current one.
#[derive(Clone, Copy, Debug, PartialEq, Eq, Structural)]
pub enum ChunkGranularity {
    Static,
    Fixed(usize),
}

impl Default for ChunkGranularity {
    fn default() -> (granularity: Self)
        ensures
            granularity == ChunkGranularity::Static,
    {
        ChunkGranularity::Static
    }
}

/// Deterministic pool-lifetime ownership used by the static CPU path.
#[derive(Clone, Copy, Debug, PartialEq, Eq, Structural)]
pub enum StaticPartitionPolicy {
    /// Stable baseline assignment by semantic LP slot.
    Modulo,
    /// Image-only LPT assignment weighted by offered load along flow routes.
    RouteLoad,
}

impl Default for StaticPartitionPolicy {
    fn default() -> (policy: Self)
        ensures
            policy == StaticPartitionPolicy::RouteLoad,
    {
        StaticPartitionPolicy::RouteLoad
    }
}

/// Worker-failure kind that tests inject to check all-or-nothing failure.
#[derive(Clone, Copy, Debug, PartialEq, Eq, Structural)]
pub enum CpuFaultKind {
    Failure,
    Panic,
}

/// Deterministic fault injected after an LP has processed a number of events.
#[derive(Clone, Copy, Debug, PartialEq, Eq, Structural)]
pub struct CpuFaultInjection {
    pub worker: usize,
    pub round: u64,
    pub after_events: u64,
    pub kind: CpuFaultKind,
}

/// CPU safe-horizon execution policy.
#[derive(Clone, Copy, Debug, PartialEq, Eq, Structural)]
pub struct CpuConfig {
    pub workers: usize,
    pub granularity: ChunkGranularity,
    pub static_partition: StaticPartitionPolicy,
    /// Empty channel polls before a per-round wait parks the thread. Zero parks immediately.
    pub spin_before_park: u32,
    /// LPs with estimated work strictly greater than this value are stragglers.
    pub straggler_threshold_events: Option<u64>,
    /// Maximum workers reserved exclusively for stragglers in a round.
    pub dedicated_straggler_workers: usize,
    /// Optional deterministic capacity bound used by failure and sizing tests.
    pub max_outbox_events_per_lp: Option<usize>,
    pub fault_injection: Option<CpuFaultInjection>,
}

/// Default polls before a waiting worker parks.
pub const DEFAULT_SPIN_BEFORE_PARK: u32 = 4_096;

impl Default for CpuConfig {
    fn default() -> (config: Self)
        ensures
            config == (CpuConfig {
                workers: 1,
                granularity: ChunkGranularity::Static,
                static_partition: StaticPartitionPolicy::RouteLoad,
                spin_before_park: DEFAULT_SPIN_BEFORE_PARK,
                straggler_threshold_events: None,
                dedicated_straggler_workers: 1,
                max_outbox_events_per_lp: None,
                fault_injection: None,
            }),
    {
        CpuConfig {
            workers: 1,
            granularity: ChunkGranularity::Static,
            static_partition: StaticPartitionPolicy::RouteLoad,
            spin_before_park: DEFAULT_SPIN_BEFORE_PARK,
            straggler_threshold_events: None,
            dedicated_straggler_workers: 1,
            max_outbox_events_per_lp: None,
            fault_injection: None,
        }
    }
}

/// Scheduling class selected for an LP in one round.
#[derive(Clone, Copy, Debug, PartialEq, Eq, Structural)]
pub enum WorkClass {
    Straggler,
    Bulk,
}

/// Deterministic work estimate used by the bucketing pass.
#[derive(Clone, Copy, Debug, PartialEq, Eq, Structural)]
pub struct LpWorkEstimate {
    pub node: NodeId,
    pub estimated_events: u64,
}

/// Backend-neutral round partition shape reusable by later heterogeneous backends.
#[derive(Clone, Debug, Default, PartialEq, Eq)]
pub struct WorkPartition {
    pub stragglers: Vec<LpWorkEstimate>,
    pub bulk_chunks: Vec<Vec<LpWorkEstimate>>,
    /// Workers reserved exclusively for straggler chunks while bulk work remains.
    pub reserved_straggler_workers: Vec<usize>,
}

/// One LP's measured placement and drain time.
#[derive(Clone, Copy, Debug, PartialEq, Eq, Structural)]
pub struct LpExecutionTiming {
    pub node: NodeId,
    pub worker: usize,
    pub class: WorkClass,
    pub dispatch_order: u64,
    pub started_after_ns: u64,
    pub busy_ns: u64,
}

/// Busy and barrier-idle time for one persistent worker in one round.
#[derive(Clone, Copy, Debug, PartialEq, Eq, Structural)]
pub struct WorkerRoundTiming {
    pub worker: usize,
    pub busy_ns: u64,
    pub idle_ns: u64,
}

/// Why CPU execution stopped. No partial run escapes an error.
#[derive(Clone, Copy, Debug, PartialEq, Eq)]
pub enum ExecutionError {
    InvalidCpuConfig(&'static str),
    UnknownNode(NodeId),
    CounterOverflow(NodeId),
    WorkerPanicked { worker: usize },
    WorkerChannelDisconnected,
    /// Some channel has a zero minimum delay, so no round could ever advance past its frontier.
    NonPositiveLookahead,
    /// Two initial packets carry the same identity.
    DuplicatePayload(crate::event::PayloadId),
    /// Two initial events carry the same key.
    DuplicateEventKey(crate::event::EventKey),
    /// An event or a queue names a packet with no initial descriptor.
    UnknownPacket(crate::event::PayloadId),
    /// A packet names a flow the image does not list.
    UnknownFlow(crate::event::FlowId),
    /// An LP names a state record that does not exist.
    InvalidStateSlot { node: NodeId, kind: crate::model::NodeKind, state_slot: u32 },
}

/// The refusal `validate_config` gives a configuration, if any.
pub open spec fn spec_config_error(config: CpuConfig) -> Option<&'static str> {
    if config.workers == 0 {
        Some("workers must be greater than zero")
    } else if config.granularity == ChunkGranularity::Fixed(0) {
        Some("fixed chunk granularity must be greater than zero")
    } else if config.straggler_threshold_events is Some && config.dedicated_straggler_workers == 0 {
        Some("straggler routing requires at least one dedicated worker")
    } else if config.fault_injection matches Some(fault) && fault.worker >= config.workers {
        Some("fault injection names a nonexistent worker")
    } else {
        None
    }
}

/// Checks a pool configuration: at least one worker, nonzero fixed chunks, a dedicated worker
/// when stragglers are routed, and a fault injected only into an existing worker.
pub fn validate_config(config: CpuConfig) -> (result: Result<(), ExecutionError>)
    ensures
        spec_config_error(config) matches Some(message) ==> (result matches Err(
            ExecutionError::InvalidCpuConfig(m),
        ) && m == message),
        spec_config_error(config) is None ==> result is Ok,
{
    if config.workers == 0 {
        return Err(ExecutionError::InvalidCpuConfig("workers must be greater than zero"));
    }
    if matches!(config.granularity, ChunkGranularity::Fixed(0)) {
        return Err(
            ExecutionError::InvalidCpuConfig("fixed chunk granularity must be greater than zero"),
        );
    }
    if config.straggler_threshold_events.is_some() && config.dedicated_straggler_workers == 0 {
        return Err(
            ExecutionError::InvalidCpuConfig(
                "straggler routing requires at least one dedicated worker",
            ),
        );
    }
    if let Some(fault) = config.fault_injection {
        if fault.worker >= config.workers {
            return Err(
                ExecutionError::InvalidCpuConfig("fault injection names a nonexistent worker"),
            );
        }
    }
    Ok(())
}

// ---------------------------------------------------------------------------------------------
// Indexed LP frontier of one worker.
// ---------------------------------------------------------------------------------------------

/// One active LP in a worker's frontier: its next event time, its node and its local slot.
/// Entries order by time, then node, then slot.
#[derive(Clone, Copy, Debug, PartialEq, Eq, Structural)]
pub struct FrontierEntry {
    pub time_ns: u64,
    pub node: NodeId,
    pub owner_slot: usize,
}

/// `a` orders at or before `b`.
pub open spec fn entry_le(a: FrontierEntry, b: FrontierEntry) -> bool {
    ||| a.time_ns < b.time_ns
    ||| a.time_ns == b.time_ns && a.node.0 < b.node.0
    ||| a.time_ns == b.time_ns && a.node.0 == b.node.0 && a.owner_slot <= b.owner_slot
}

/// Strictly before.
fn entry_less(a: FrontierEntry, b: FrontierEntry) -> (less: bool)
    ensures
        less == !entry_le(b, a),
{
    if a.time_ns != b.time_ns {
        a.time_ns < b.time_ns
    } else if a.node.0 != b.node.0 {
        a.node.0 < b.node.0
    } else {
        a.owner_slot < b.owner_slot
    }
}

/// Heap position of an inactive slot.
pub const NO_INDEX_SLOT: usize = usize::MAX;

pub open spec fn heap_parent(i: int) -> int {
    (i - 1) / 2
}

/// Every entry orders at or after its heap parent.
pub open spec fn heap_ordered(h: Seq<FrontierEntry>) -> bool {
    forall|i: int| #![trigger h[i]] 0 < i < h.len() ==> entry_le(h[heap_parent(i)], h[i])
}

/// Heap order holds on every edge not touching position `k`, and `k`'s parent orders before
/// `k`'s children.
pub open spec fn ordered_except(h: Seq<FrontierEntry>, k: int) -> bool {
    &&& forall|i: int|
        #![trigger h[i]]
        0 < i < h.len() && i != k && heap_parent(i) != k ==> entry_le(h[heap_parent(i)], h[i])
    &&& forall|i: int|
        #![trigger h[i]]
        0 < i < h.len() && heap_parent(i) == k && k > 0 ==> entry_le(h[heap_parent(k)], h[i])
}

/// A binary min-heap of a worker's active LPs, indexed by local slot so that an LP's next event
/// time can be raised, lowered or withdrawn in place.
pub struct OwnerFrontierIndex {
    heap: Vec<FrontierEntry>,
    next_time_ns: Vec<u64>,
    active: Vec<bool>,
    index_slot: Vec<usize>,
}

impl OwnerFrontierIndex {
    pub closed spec fn heap_seq(&self) -> Seq<FrontierEntry> {
        self.heap@
    }

    /// Last recorded next-event time of each slot.
    pub closed spec fn next_times(&self) -> Seq<u64> {
        self.next_time_ns@
    }

    /// Whether each slot has an entry in the frontier.
    pub closed spec fn active_flags(&self) -> Seq<bool> {
        self.active@
    }

    /// Heap position of each slot's entry.
    pub closed spec fn index_slots(&self) -> Seq<usize> {
        self.index_slot@
    }

    pub open spec fn slot_count(&self) -> int {
        self.next_times().len() as int
    }

    /// Positions and slots agree: each heap entry sits where its slot's index says, belongs to an
    /// active slot and carries that slot's recorded time; inactive slots have no position.
    pub open spec fn index_ok(&self) -> bool {
        let h = self.heap_seq();
        let n = self.slot_count();
        &&& self.active_flags().len() == n
        &&& self.index_slots().len() == n
        &&& h.len() <= n
        &&& forall|i: int|
            #![trigger h[i]]
            0 <= i < h.len() ==> {
                &&& h[i].owner_slot < n
                &&& self.index_slots()[h[i].owner_slot as int] == i
                &&& self.active_flags()[h[i].owner_slot as int]
                &&& h[i].time_ns == self.next_times()[h[i].owner_slot as int]
            }
        &&& forall|s: int|
            #![trigger self.active_flags()[s]]
            0 <= s < n ==> (self.active_flags()[s] ==> self.index_slots()[s] < h.len()
                && h[self.index_slots()[s] as int].owner_slot == s) && (!self.active_flags()[s]
                ==> self.index_slots()[s] == NO_INDEX_SLOT)
    }

    pub open spec fn wf(&self) -> bool {
        &&& self.index_ok()
        &&& heap_ordered(self.heap_seq())
    }

    /// The frontier's contents: each active slot's entry.
    pub open spec fn entries(&self) -> Map<usize, FrontierEntry> {
        Map::new(
            |s: usize| s < self.slot_count() && self.active_flags()[s as int],
            |s: usize| self.heap_seq()[self.index_slots()[s as int] as int],
        )
    }

    fn swap_heap(&mut self, left: usize, right: usize)
        requires
            old(self).index_ok(),
            left < old(self).heap_seq().len(),
            right < old(self).heap_seq().len(),
        ensures
            final(self).index_ok(),
            final(self).heap_seq() == old(self).heap_seq().update(left as int, old(self).heap_seq()[right as int]).update(
                right as int,
                old(self).heap_seq()[left as int],
            ),
            final(self).next_times() == old(self).next_times(),
            final(self).active_flags() == old(self).active_flags(),
            final(self).entries() == old(self).entries(),
    {
        let ghost before = *self;
        let a = self.heap[left];
        let b = self.heap[right];
        self.heap.set(left, b);
        self.heap.set(right, a);
        self.index_slot.set(b.owner_slot, left);
        self.index_slot.set(a.owner_slot, right);
        proof {
            let h = self.heap_seq();
            assert forall|i: int| 0 <= i < h.len() implies {
                &&& h[i].owner_slot < self.slot_count()
                &&& self.index_slots()[h[i].owner_slot as int] == i
                &&& self.active_flags()[h[i].owner_slot as int]
                &&& h[i].time_ns == self.next_times()[h[i].owner_slot as int]
            } by {
                if i != left && i != right {
                    assert(h[i] == before.heap_seq()[i]);
                    assert(before.index_slots()[h[i].owner_slot as int] == i);
                }
            }
            assert forall|s: int| 0 <= s < self.slot_count() implies (self.active_flags()[s]
                ==> self.index_slots()[s] < h.len() && h[self.index_slots()[s] as int].owner_slot == s)
                && (!self.active_flags()[s] ==> self.index_slots()[s] == NO_INDEX_SLOT) by {
                assert(before.active_flags()[s] == self.active_flags()[s]);
                if s != a.owner_slot && s != b.owner_slot {
                    assert(self.index_slots()[s] == before.index_slots()[s]);
                    if before.active_flags()[s] {
                        let j = before.index_slots()[s] as int;
                        assert(before.heap_seq()[j].owner_slot == s);
                        assert(j != left && j != right);
                    }
                }
            }
            assert(self.entries() =~= before.entries());
        }
    }

    fn sift_up(&mut self, index: usize)
        requires
            old(self).index_ok(),
            index < old(self).heap_seq().len(),
            ordered_except(old(self).heap_seq(), index as int),
            forall|i: int|
                #![trigger old(self).heap_seq()[i]]
                0 < i < old(self).heap_seq().len() && heap_parent(i) == index ==> entry_le(
                    old(self).heap_seq()[index as int],
                    old(self).heap_seq()[i],
                ),
        ensures
            final(self).wf(),
            final(self).heap_seq().len() == old(self).heap_seq().len(),
            final(self).next_times() == old(self).next_times(),
            final(self).active_flags() == old(self).active_flags(),
            final(self).entries() == old(self).entries(),
    {
        let ghost initial = *self;
        let mut index = index;
        while index != 0
            invariant
                initial == *old(self),
                self.index_ok(),
                index < self.heap_seq().len(),
                self.heap_seq().len() == initial.heap_seq().len(),
                self.next_times() == initial.next_times(),
                self.active_flags() == initial.active_flags(),
                self.entries() == initial.entries(),
                ordered_except(self.heap_seq(), index as int),
                forall|i: int|
                    #![trigger self.heap_seq()[i]]
                    0 < i < self.heap_seq().len() && heap_parent(i) == index ==> entry_le(
                        self.heap_seq()[index as int],
                        self.heap_seq()[i],
                    ),
            decreases index,
        {
            let parent = (index - 1) / 2;
            if !entry_less(self.heap[index], self.heap[parent]) {
                proof {
                    let h = self.heap_seq();
                    assert forall|i: int| 0 < i < h.len() implies entry_le(h[heap_parent(i)], h[i]) by {
                        if i == index {
                        } else if heap_parent(i) == index {
                        }
                    }
                }
                return;
            }
            let ghost h = self.heap_seq();
            self.swap_heap(index, parent);
            proof {
                let g = self.heap_seq();
                let k = index as int;
                let p = parent as int;
                assert(heap_parent(k) == p);
                assert forall|i: int|
                    0 < i < g.len() && i != p && heap_parent(i) != p implies entry_le(
                    g[heap_parent(i)],
                    g[i],
                ) by {
                    if heap_parent(i) == k {
                        assert(h[i] == g[i]);
                    } else {
                        assert(i != k);
                        assert(g[i] == h[i]);
                        assert(g[heap_parent(i)] == h[heap_parent(i)]);
                    }
                }
                assert forall|i: int| 0 < i < g.len() && heap_parent(i) == p && p > 0 implies entry_le(
                    g[heap_parent(p)],
                    g[i],
                ) by {
                    let gp = heap_parent(p);
                    assert(g[gp] == h[gp]);
                    assert(entry_le(h[gp], h[p]));
                    if i != k {
                        assert(g[i] == h[i]);
                        assert(entry_le(h[p], h[i]));
                    }
                }
                assert forall|i: int| 0 < i < g.len() && heap_parent(i) == p implies entry_le(
                    g[p],
                    g[i],
                ) by {
                    if i != k {
                        assert(g[i] == h[i]);
                        assert(entry_le(h[p], h[i]));
                    }
                }
            }
            index = parent;
        }
        proof {
            let h = self.heap_seq();
            assert forall|i: int| 0 < i < h.len() implies entry_le(h[heap_parent(i)], h[i]) by {
                if heap_parent(i) == 0 {
                }
            }
        }
    }
}

impl OwnerFrontierIndex {
    fn sift_down(&mut self, index: usize)
        requires
            old(self).index_ok(),
            index < old(self).heap_seq().len(),
            ordered_except(old(self).heap_seq(), index as int),
            index > 0 ==> entry_le(
                old(self).heap_seq()[heap_parent(index as int)],
                old(self).heap_seq()[index as int],
            ),
        ensures
            final(self).wf(),
            final(self).heap_seq().len() == old(self).heap_seq().len(),
            final(self).next_times() == old(self).next_times(),
            final(self).active_flags() == old(self).active_flags(),
            final(self).entries() == old(self).entries(),
    {
        let ghost initial = *self;
        let mut index = index;
        loop
            invariant
                initial == *old(self),
                self.index_ok(),
                index < self.heap_seq().len(),
                self.heap_seq().len() == initial.heap_seq().len(),
                self.next_times() == initial.next_times(),
                self.active_flags() == initial.active_flags(),
                self.entries() == initial.entries(),
                ordered_except(self.heap_seq(), index as int),
                index > 0 ==> entry_le(
                    self.heap_seq()[heap_parent(index as int)],
                    self.heap_seq()[index as int],
                ),
            decreases self.heap_seq().len() - index,
        {
            let len = self.heap.len();
            let left = if index <= (usize::MAX - 1) / 2 {
                index * 2 + 1
            } else {
                usize::MAX
            };
            if left >= len {
                proof {
                    let h = self.heap_seq();
                    assert forall|i: int| 0 < i < h.len() implies entry_le(h[heap_parent(i)], h[i]) by {
                        if heap_parent(i) == index {
                            assert(i >= 2 * index + 1);
                        }
                    }
                }
                return;
            }
            let right = left + 1;
            let child = if right < len && entry_less(self.heap[right], self.heap[left]) {
                right
            } else {
                left
            };
            proof {
                assert(heap_parent(left as int) == index);
                assert(heap_parent(right as int) == index);
            }
            if !entry_less(self.heap[child], self.heap[index]) {
                proof {
                    let h = self.heap_seq();
                    assert forall|i: int| 0 < i < h.len() implies entry_le(h[heap_parent(i)], h[i]) by {
                        if heap_parent(i) == index {
                            assert(i == left || i == right);
                        }
                    }
                }
                return;
            }
            let ghost h = self.heap_seq();
            self.swap_heap(index, child);
            proof {
                let g = self.heap_seq();
                let k = index as int;
                let c = child as int;
                assert(heap_parent(c) == k);
                assert forall|i: int|
                    0 < i < g.len() && i != c && heap_parent(i) != c implies entry_le(
                    g[heap_parent(i)],
                    g[i],
                ) by {
                    if i == k {
                        assert(g[heap_parent(k)] == h[heap_parent(k)]);
                    } else if heap_parent(i) == k {
                        assert(i == left || i == right);
                        assert(g[i] == h[i]);
                    } else {
                        assert(g[i] == h[i]);
                        assert(g[heap_parent(i)] == h[heap_parent(i)]);
                    }
                }
                assert forall|i: int| 0 < i < g.len() && heap_parent(i) == c && c > 0 implies entry_le(
                    g[heap_parent(c)],
                    g[i],
                ) by {
                    assert(i != k && i != c);
                    assert(g[i] == h[i]);
                }
            }
            index = child;
        }
    }

    /// Re-establishes heap order after the entry at `index` changed.
    fn restore_heap_at(&mut self, index: usize)
        requires
            old(self).index_ok(),
            index < old(self).heap_seq().len(),
            ordered_except(old(self).heap_seq(), index as int),
        ensures
            final(self).wf(),
            final(self).heap_seq().len() == old(self).heap_seq().len(),
            final(self).next_times() == old(self).next_times(),
            final(self).active_flags() == old(self).active_flags(),
            final(self).entries() == old(self).entries(),
    {
        if index != 0 && entry_less(self.heap[index], self.heap[(index - 1) / 2]) {
            proof {
                let h = self.heap_seq();
                assert forall|i: int|
                    0 < i < h.len() && heap_parent(i) == index implies entry_le(h[index as int], h[i]) by {
                    assert(entry_le(h[heap_parent(index as int)], h[i]));
                }
            }
            self.sift_up(index);
        } else {
            self.sift_down(index);
        }
    }

    proof fn lemma_root_is_minimum(h: Seq<FrontierEntry>, i: int)
        requires
            heap_ordered(h),
            0 <= i < h.len(),
        ensures
            entry_le(h[0], h[i]),
        decreases i,
    {
        if i > 0 {
            Self::lemma_root_is_minimum(h, heap_parent(i));
            assert(entry_le(h[heap_parent(i)], h[i]));
        }
    }

    /// Removes and returns the entry at heap position `index`, withdrawing its slot.
    fn remove_at(&mut self, index: usize) -> (removed: FrontierEntry)
        requires
            old(self).wf(),
            index < old(self).heap_seq().len(),
        ensures
            final(self).wf(),
            removed == old(self).heap_seq()[index as int],
            final(self).heap_seq().len() == old(self).heap_seq().len() - 1,
            final(self).next_times() == old(self).next_times(),
            final(self).active_flags() == old(self).active_flags().update(removed.owner_slot as int, false),
            final(self).entries() == old(self).entries().remove(removed.owner_slot),
    {
        let ghost before = *self;
        let removed = self.heap[index];
        let last = match self.heap.pop() {
            Some(last) => last,
            None => removed,
        };
        self.active.set(removed.owner_slot, false);
        self.index_slot.set(removed.owner_slot, NO_INDEX_SLOT);
        let ghost h = before.heap_seq();
        let ghost len = h.len();
        if index < self.heap.len() {
            self.heap.set(index, last);
            self.index_slot.set(last.owner_slot, index);
            proof {
                let g = self.heap_seq();
                assert(last == h[len - 1]);
                assert(last.owner_slot != removed.owner_slot);
                assert forall|i: int| 0 <= i < g.len() implies {
                    &&& g[i].owner_slot < self.slot_count()
                    &&& self.index_slots()[g[i].owner_slot as int] == i
                    &&& self.active_flags()[g[i].owner_slot as int]
                    &&& g[i].time_ns == self.next_times()[g[i].owner_slot as int]
                } by {
                    if i != index {
                        assert(g[i] == h[i]);
                        assert(h[i].owner_slot != removed.owner_slot);
                        assert(h[i].owner_slot != last.owner_slot);
                    }
                }
                assert forall|s: int| 0 <= s < self.slot_count() implies (self.active_flags()[s]
                    ==> self.index_slots()[s] < g.len() && g[self.index_slots()[s] as int].owner_slot == s)
                    && (!self.active_flags()[s] ==> self.index_slots()[s] == NO_INDEX_SLOT) by {
                    if s != removed.owner_slot && s != last.owner_slot && before.active_flags()[s] {
                        let j = before.index_slots()[s] as int;
                        assert(h[j].owner_slot == s);
                        assert(j != index && j != len - 1);
                        assert(g[j] == h[j]);
                    }
                }
                assert forall|i: int|
                    #![trigger g[i]]
                    0 < i < g.len() && i != index && heap_parent(i) != index implies entry_le(
                    g[heap_parent(i)],
                    g[i],
                ) by {
                    assert(g[i] == h[i]);
                    assert(g[heap_parent(i)] == h[heap_parent(i)]);
                }
                assert forall|i: int|
                    #![trigger g[i]]
                    0 < i < g.len() && heap_parent(i) == index && index > 0 implies entry_le(
                    g[heap_parent(index as int)],
                    g[i],
                ) by {
                    assert(g[i] == h[i]);
                    assert(g[heap_parent(index as int)] == h[heap_parent(index as int)]);
                    assert(entry_le(h[heap_parent(index as int)], h[index as int]));
                    assert(entry_le(h[index as int], h[i]));
                }
                assert(self.entries() =~= before.entries().remove(removed.owner_slot)) by {
                    assert forall|s: usize| #[trigger] self.entries().dom().contains(s) implies self.entries()[s]
                        == before.entries()[s] by {
                        if s != last.owner_slot {
                            let j = before.index_slots()[s as int] as int;
                            assert(h[j].owner_slot == s);
                            assert(j != index && j != len - 1);
                        }
                    }
                }
            }
            self.restore_heap_at(index);
        } else {
            proof {
                let g = self.heap_seq();
                assert(g =~= h.drop_last());
                assert forall|i: int| 0 <= i < g.len() implies {
                    &&& g[i].owner_slot < self.slot_count()
                    &&& self.index_slots()[g[i].owner_slot as int] == i
                    &&& self.active_flags()[g[i].owner_slot as int]
                    &&& g[i].time_ns == self.next_times()[g[i].owner_slot as int]
                } by {
                    assert(g[i] == h[i]);
                    assert(h[i].owner_slot != removed.owner_slot);
                }
                assert forall|s: int| 0 <= s < self.slot_count() implies (self.active_flags()[s]
                    ==> self.index_slots()[s] < g.len() && g[self.index_slots()[s] as int].owner_slot == s)
                    && (!self.active_flags()[s] ==> self.index_slots()[s] == NO_INDEX_SLOT) by {
                    if s != removed.owner_slot && before.active_flags()[s] {
                        let j = before.index_slots()[s] as int;
                        assert(h[j].owner_slot == s);
                        assert(j != index);
                    }
                }
                assert forall|i: int| #![trigger g[i]] 0 < i < g.len() implies entry_le(g[heap_parent(i)], g[i]) by {
                    assert(g[i] == h[i]);
                }
                assert(self.entries() =~= before.entries().remove(removed.owner_slot)) by {
                    assert forall|s: usize| #[trigger] self.entries().dom().contains(s) implies self.entries()[s]
                        == before.entries()[s] by {
                        let j = before.index_slots()[s as int] as int;
                        assert(h[j].owner_slot == s);
                        assert(j != index);
                    }
                }
            }
        }
        removed
    }
}

/// A probe counter advanced by one, saturating.
pub open spec fn spec_probe(count: u64) -> u64 {
    if count == u64::MAX {
        u64::MAX
    } else {
        (count + 1) as u64
    }
}

impl OwnerFrontierIndex {
    /// An empty frontier over `lp_count` local slots.
    pub fn new(lp_count: usize) -> (frontier: Self)
        ensures
            frontier.wf(),
            frontier.slot_count() == lp_count,
            frontier.entries() == Map::<usize, FrontierEntry>::empty(),
            frontier.heap_seq().len() == 0,
            forall|s: int| 0 <= s < lp_count ==> #[trigger] frontier.next_times()[s] == 0,
            forall|s: int| 0 <= s < lp_count ==> !#[trigger] frontier.active_flags()[s],
    {
        let mut next_time_ns: Vec<u64> = Vec::new();
        let mut active: Vec<bool> = Vec::new();
        let mut index_slot: Vec<usize> = Vec::new();
        let mut slot: usize = 0;
        while slot < lp_count
            invariant
                slot <= lp_count,
                next_time_ns@.len() == slot,
                active@.len() == slot,
                index_slot@.len() == slot,
                forall|s: int| 0 <= s < slot ==> #[trigger] next_time_ns@[s] == 0,
                forall|s: int| 0 <= s < slot ==> !#[trigger] active@[s],
                forall|s: int| 0 <= s < slot ==> #[trigger] index_slot@[s] == NO_INDEX_SLOT,
            decreases lp_count - slot,
        {
            next_time_ns.push(0);
            active.push(false);
            index_slot.push(NO_INDEX_SLOT);
            slot = slot + 1;
        }
        let frontier = OwnerFrontierIndex { heap: Vec::new(), next_time_ns, active, index_slot };
        assert(frontier.entries() =~= Map::<usize, FrontierEntry>::empty());
        frontier
    }

    /// Records slot `owner_slot`'s next event: an entry keyed by the event's time is inserted or
    /// moved, or withdrawn when the LP has no next event. Every call counts one LP probe.
    pub fn update(
        &mut self,
        owner_slot: usize,
        node: NodeId,
        next: Option<EventKey>,
        physical_lp_probes: &mut u64,
    ) -> (result: Result<(), ExecutionError>)
        requires
            old(self).wf(),
        ensures
            final(self).wf(),
            *final(physical_lp_probes) == spec_probe(*old(physical_lp_probes)),
            final(self).slot_count() == old(self).slot_count(),
            owner_slot >= old(self).slot_count() ==> result == Err::<(), ExecutionError>(
                ExecutionError::UnknownNode(node),
            ) && *final(self) == *old(self),
            owner_slot < old(self).slot_count() ==> result is Ok,
            next matches Some(key) ==> (owner_slot < old(self).slot_count() ==> {
                &&& final(self).entries() == old(self).entries().insert(
                    owner_slot,
                    (FrontierEntry { time_ns: key.time_ns, node, owner_slot }),
                )
                &&& final(self).next_times() == old(self).next_times().update(
                    owner_slot as int,
                    key.time_ns,
                )
                &&& final(self).active_flags() == old(self).active_flags().update(owner_slot as int, true)
            }),
            owner_slot < old(self).slot_count() && next is None ==> {
                &&& final(self).entries() == old(self).entries().remove(owner_slot)
                &&& final(self).next_times() == old(self).next_times()
                &&& final(self).active_flags() == old(self).active_flags().update(owner_slot as int, false)
            },
    {
        *physical_lp_probes = physical_lp_probes.saturating_add(1);
        if owner_slot >= self.next_time_ns.len() {
            return Err(ExecutionError::UnknownNode(node));
        }
        let ghost before = *self;
        let ghost h = before.heap_seq();
        match (self.active[owner_slot], next) {
            (true, Some(key)) => {
                let index = self.index_slot[owner_slot];
                let entry = FrontierEntry { time_ns: key.time_ns, node, owner_slot };
                self.next_time_ns.set(owner_slot, key.time_ns);
                self.heap.set(index, entry);
                proof {
                    let g = self.heap_seq();
                    assert(h[index as int].owner_slot == owner_slot);
                    assert forall|i: int| 0 <= i < g.len() implies {
                        &&& g[i].owner_slot < self.slot_count()
                        &&& self.index_slots()[g[i].owner_slot as int] == i
                        &&& self.active_flags()[g[i].owner_slot as int]
                        &&& g[i].time_ns == self.next_times()[g[i].owner_slot as int]
                    } by {
                        if i != index {
                            assert(g[i] == h[i]);
                            assert(h[i].owner_slot != owner_slot);
                        }
                    }
                    assert forall|i: int|
                        #![trigger g[i]]
                        0 < i < g.len() && i != index && heap_parent(i) != index implies entry_le(
                        g[heap_parent(i)],
                        g[i],
                    ) by {
                        assert(g[i] == h[i]);
                    }
                    assert forall|i: int|
                        #![trigger g[i]]
                        0 < i < g.len() && heap_parent(i) == index && index > 0 implies entry_le(
                        g[heap_parent(index as int)],
                        g[i],
                    ) by {
                        assert(g[i] == h[i]);
                        assert(entry_le(h[heap_parent(index as int)], h[index as int]));
                        assert(entry_le(h[index as int], h[i]));
                    }
                    assert(self.entries() =~= before.entries().insert(owner_slot, entry));
                }
                self.restore_heap_at(index);
            },
            (true, None) => {
                let index = self.index_slot[owner_slot];
                let removed = self.remove_at(index);
                proof {
                    assert(h[index as int].owner_slot == owner_slot);
                }
            },
            (false, Some(key)) => {
                let entry = FrontierEntry { time_ns: key.time_ns, node, owner_slot };
                let index = self.heap.len();
                proof {
                    // Every heap entry belongs to a distinct active slot, so an inactive slot
                    // leaves room for one more entry.
                    let owners = h.map_values(|e: FrontierEntry| e.owner_slot as int);
                    assert forall|a: int, b: int| 0 <= a < b < owners.len() implies owners[a]
                        != owners[b] by {
                        assert(before.index_slots()[h[a].owner_slot as int] == a);
                        assert(before.index_slots()[h[b].owner_slot as int] == b);
                    }
                    owners.unique_seq_to_set();
                    let bound = Set::new(|s: int| 0 <= s < before.slot_count() && s != owner_slot);
                    assert(owners.to_set().subset_of(bound)) by {
                        assert forall|s: int| owners.to_set().contains(s) implies bound.contains(s) by {
                            let i = choose|i: int| 0 <= i < owners.len() && owners[i] == s;
                            assert(h[i].owner_slot != owner_slot);
                        }
                    }
                    let range = Set::new(|s: int| 0 <= s < before.slot_count());
                    assert(range =~= vstd::set_lib::set_int_range(0, before.slot_count()));
                    vstd::set_lib::lemma_int_range(0, before.slot_count());
                    assert(bound =~= range.remove(owner_slot as int));
                    vstd::set_lib::lemma_len_subset(owners.to_set(), bound);
                }
                self.next_time_ns.set(owner_slot, key.time_ns);
                self.active.set(owner_slot, true);
                self.heap.push(entry);
                self.index_slot.set(owner_slot, index);
                proof {
                    let g = self.heap_seq();
                    assert forall|i: int| 0 <= i < g.len() implies {
                        &&& g[i].owner_slot < self.slot_count()
                        &&& self.index_slots()[g[i].owner_slot as int] == i
                        &&& self.active_flags()[g[i].owner_slot as int]
                        &&& g[i].time_ns == self.next_times()[g[i].owner_slot as int]
                    } by {
                        if i != index {
                            assert(g[i] == h[i]);
                            assert(h[i].owner_slot != owner_slot);
                        }
                    }
                    assert forall|s: int| 0 <= s < self.slot_count() implies (self.active_flags()[s]
                        ==> self.index_slots()[s] < g.len() && g[self.index_slots()[s] as int].owner_slot == s)
                        && (!self.active_flags()[s] ==> self.index_slots()[s] == NO_INDEX_SLOT) by {
                        if s != owner_slot && before.active_flags()[s] {
                            let j = before.index_slots()[s as int] as int;
                            assert(g[j] == h[j]);
                        }
                    }
                    assert forall|i: int|
                        #![trigger g[i]]
                        0 < i < g.len() && i != index && heap_parent(i) != index implies entry_le(
                        g[heap_parent(i)],
                        g[i],
                    ) by {
                        assert(g[i] == h[i]);
                    }
                    assert forall|i: int|
                        #![trigger g[i]]
                        0 < i < g.len() && heap_parent(i) == index implies entry_le(g[index as int], g[i]) by {
                        assert(i > index);
                    }
                    assert(self.entries() =~= before.entries().insert(owner_slot, entry)) by {
                        assert forall|s: usize| #[trigger] self.entries().dom().contains(s) && s != owner_slot implies self.entries()[s]
                            == before.entries()[s] by {
                            let j = before.index_slots()[s as int] as int;
                            assert(g[j] == h[j]);
                        }
                    }
                }
                self.sift_up(index);
            },
            (false, None) => {
                proof {
                    assert(before.entries() =~= before.entries().remove(owner_slot));
                    assert(before.active_flags() =~= before.active_flags().update(owner_slot as int, false));
                }
            },
        }
        Ok(())
    }

    /// The earliest entry, if any; looking counts one LP probe.
    pub fn peek_min(&mut self, heap_pops: &mut u64, physical_lp_probes: &mut u64) -> (entry: Option<
        FrontierEntry,
    >)
        requires
            old(self).wf(),
        ensures
            *final(self) == *old(self),
            *final(heap_pops) == *old(heap_pops),
            entry is None <==> old(self).entries().dom().is_empty(),
            entry is None ==> *final(physical_lp_probes) == *old(physical_lp_probes),
            entry matches Some(e) ==> {
                &&& *final(physical_lp_probes) == spec_probe(*old(physical_lp_probes))
                &&& old(self).heap_seq().len() > 0 && e == old(self).heap_seq()[0]
                &&& old(self).entries().dom().contains(e.owner_slot)
                &&& old(self).entries()[e.owner_slot] == e
                &&& forall|s: usize|
                    #[trigger] old(self).entries().dom().contains(s) ==> entry_le(e, old(self).entries()[s])
            },
    {
        if self.heap.len() == 0 {
            proof {
                if exists|s: usize| self.entries().dom().contains(s) {
                    let s = choose|s: usize| self.entries().dom().contains(s);
                    assert(self.active_flags()[s as int]);
                }
            }
            return None;
        }
        let entry = self.heap[0];
        *physical_lp_probes = physical_lp_probes.saturating_add(1);
        proof {
            let h = self.heap_seq();
            assert(self.entries().dom().contains(entry.owner_slot));
            assert forall|s: usize| #[trigger] self.entries().dom().contains(s) implies entry_le(
                entry,
                self.entries()[s],
            ) by {
                Self::lemma_root_is_minimum(h, self.index_slots()[s as int] as int);
            }
        }
        Some(entry)
    }

    /// Removes and returns the earliest entry when its time is before the exclusive horizon.
    pub fn pop_before(
        &mut self,
        exclusive_horizon_ns: u128,
        heap_pops: &mut u64,
        physical_lp_probes: &mut u64,
    ) -> (popped: Option<FrontierEntry>)
        requires
            old(self).wf(),
        ensures
            final(self).wf(),
            final(self).slot_count() == old(self).slot_count(),
            old(self).entries().dom().is_empty() ==> popped is None && *final(self) == *old(self)
                && *final(physical_lp_probes) == *old(physical_lp_probes) && *final(heap_pops)
                == *old(heap_pops),
            !old(self).entries().dom().is_empty() ==> *final(physical_lp_probes) == spec_probe(
                *old(physical_lp_probes),
            ),
            popped is None ==> *final(self) == *old(self) && *final(heap_pops) == *old(heap_pops),
            popped is None && !old(self).entries().dom().is_empty() ==> forall|s: usize|
                #[trigger] old(self).entries().dom().contains(s) ==> old(self).entries()[s].time_ns
                    >= exclusive_horizon_ns,
            popped matches Some(e) ==> {
                &&& e.time_ns < exclusive_horizon_ns
                &&& old(self).entries().dom().contains(e.owner_slot)
                &&& old(self).entries()[e.owner_slot] == e
                &&& forall|s: usize|
                    #[trigger] old(self).entries().dom().contains(s) ==> entry_le(e, old(self).entries()[s])
                &&& final(self).entries() == old(self).entries().remove(e.owner_slot)
                &&& final(self).next_times() == old(self).next_times()
                &&& final(self).active_flags() == old(self).active_flags().update(e.owner_slot as int, false)
                &&& *final(heap_pops) == spec_probe(*old(heap_pops))
            },
    {
        let entry = match self.peek_min(heap_pops, physical_lp_probes) {
            Some(entry) => entry,
            None => {
                return None;
            },
        };
        if entry.time_ns as u128 >= exclusive_horizon_ns {
            proof {
                assert forall|s: usize| #[trigger] self.entries().dom().contains(s) implies self.entries()[s].time_ns
                    >= exclusive_horizon_ns by {
                    assert(entry_le(entry, self.entries()[s]));
                }
            }
            return None;
        }
        let ghost h = self.heap_seq();
        proof {
            assert(h[0] == entry);
        }
        let popped = self.remove_at(0);
        *heap_pops = heap_pops.saturating_add(1);
        Some(popped)
    }

    /// Last recorded next-event time of each slot.
    pub fn next_time_ns(&self) -> (times: &Vec<u64>)
        ensures
            times@ == self.next_times(),
    {
        &self.next_time_ns
    }

    /// Whether each slot has an entry.
    pub fn active(&self) -> (active: &Vec<bool>)
        ensures
            active@ == self.active_flags(),
    {
        &self.active
    }

    /// Heap position of each slot's entry; `NO_INDEX_SLOT` for an inactive slot.
    pub fn index_slot(&self) -> (positions: &Vec<usize>)
        requires
            self.wf(),
        ensures
            positions@ == self.index_slots(),
            forall|s: int|
                0 <= s < self.slot_count() && !self.active_flags()[s] ==> #[trigger] positions@[s]
                    == NO_INDEX_SLOT,
            forall|s: int|
                0 <= s < self.slot_count() && self.active_flags()[s] && #[trigger] positions@[s] == 0
                    ==> forall|t: usize|
                    #[trigger] self.entries().dom().contains(t) ==> entry_le(
                        self.entries()[s as usize],
                        self.entries()[t],
                    ),
    {
        proof {
            assert forall|s: int|
                0 <= s < self.slot_count() && self.active_flags()[s] && #[trigger] self.index_slots()[s]
                    == 0 implies forall|t: usize|
                #[trigger] self.entries().dom().contains(t) ==> entry_le(
                    self.entries()[s as usize],
                    self.entries()[t],
                ) by {
                assert forall|t: usize| #[trigger] self.entries().dom().contains(t) implies entry_le(
                    self.entries()[s as usize],
                    self.entries()[t],
                ) by {
                    Self::lemma_root_is_minimum(self.heap_seq(), self.index_slots()[t as int] as int);
                }
            }
        }
        &self.index_slot
    }

    /// Number of active entries.
    pub fn len(&self) -> (len: usize)
        requires
            self.wf(),
        ensures
            len == self.entries().dom().len(),
    {
        proof {
            let h = self.heap_seq();
            let owners = h.map_values(|e: FrontierEntry| e.owner_slot);
            assert forall|a: int, b: int| 0 <= a < b < owners.len() implies owners[a] != owners[b] by {
                assert(self.index_slots()[h[a].owner_slot as int] == a);
                assert(self.index_slots()[h[b].owner_slot as int] == b);
            }
            owners.unique_seq_to_set();
            assert(owners.to_set() =~= self.entries().dom()) by {
                assert forall|s: usize| self.entries().dom().contains(s) implies owners.to_set().contains(s) by {
                    let j = self.index_slots()[s as int] as int;
                    assert(owners[j] == s);
                }
                assert forall|s: usize| owners.to_set().contains(s) implies self.entries().dom().contains(s) by {
                    let i = choose|i: int| 0 <= i < owners.len() && owners[i] == s;
                    assert(h[i].owner_slot == s);
                }
            }
        }
        self.heap.len()
    }
}

// ---------------------------------------------------------------------------------------------
// Pool-lifetime placement by offered route load.
// ---------------------------------------------------------------------------------------------

/// The LP slot of `node`: its index in the image, when the node stored there has that identity.
pub open spec fn spec_node_slot(image: SimulationImage, node: NodeId) -> Option<usize> {
    if node.0 < image.nodes@.len() && image.nodes@[node.0 as int].id == node {
        Some(node.0 as usize)
    } else {
        None
    }
}

pub fn node_slot(image: &SimulationImage, node: NodeId) -> (slot: Option<usize>)
    ensures
        slot == spec_node_slot(*image, node),
{
    if node.0 < image.nodes.len() as u64 {
        let slot = node.0 as usize;
        if image.nodes[slot].id == node {
            return Some(slot);
        }
    }
    None
}

/// Fixed-point scale of a packet rate: one packet per nanosecond is `2^64`.
pub const RATE_SCALE: u128 = 0x1_0000_0000_0000_0000;

pub open spec fn spec_ceil_div(numerator: int, denominator: int) -> int {
    (numerator + denominator - 1) / denominator
}

/// Nanoseconds between a generator's packets: a constant generator's interval; a TCP sender's
/// bytes spread over the scenario as whole segments; a rate source's pacing tick, at which it
/// emits at most one packet.
pub open spec fn spec_generator_interval(kind: FlowGeneratorKind, stop_time_ns: u64) -> int {
    match kind {
        FlowGeneratorKind::Constant(constant) => constant.interval_ns as int,
        FlowGeneratorKind::Tcp(tcp) => {
            let segments = spec_ceil_div(tcp.total_bytes as int, tcp.mss_bytes as int);
            let packets = if segments >= 1 {
                segments
            } else {
                1
            };
            let span = if stop_time_ns >= 1 {
                stop_time_ns as int
            } else {
                1
            };
            spec_ceil_div(span, packets)
        },
        FlowGeneratorKind::Rate(rate) => rate.pacing_interval_ns as int,
    }
}

/// Rate contribution of one generator to flow slot `slot`: `ceil(2^64 / interval)` packets per
/// nanosecond, scaled, when the generator feeds that declared flow with a nonzero interval.
pub open spec fn spec_generator_rate(image: SimulationImage, generator: crate::image::FlowGeneratorState, slot: int) -> int {
    let interval = spec_generator_interval(generator.kind, image.stop_time_ns);
    if generator.flow.0 == slot && 0 <= slot < image.flows@.len() && image.flows@[slot].id
        == generator.flow && interval != 0 {
        spec_ceil_div(RATE_SCALE as int, interval)
    } else {
        0
    }
}

pub open spec fn spec_generators_rate(
    image: SimulationImage,
    generators: Seq<crate::image::FlowGeneratorState>,
    upto: int,
    slot: int,
) -> int
    decreases upto,
{
    if upto <= 0 {
        0
    } else {
        spec_generators_rate(image, generators, upto - 1, slot) + spec_generator_rate(
            image,
            generators[upto - 1],
            slot,
        )
    }
}

/// Rate offered to flow slot `slot` by the generators of the first `upto` hosts.
pub open spec fn spec_hosts_rate(image: SimulationImage, upto: int, slot: int) -> int
    decreases upto,
{
    if upto <= 0 {
        0
    } else {
        spec_hosts_rate(image, upto - 1, slot) + spec_generators_rate(
            image,
            image.host_states@[upto - 1].generators@,
            image.host_states@[upto - 1].generators@.len() as int,
            slot,
        )
    }
}

pub open spec fn spec_saturate_u128(value: int) -> u128 {
    if value > u128::MAX {
        u128::MAX
    } else {
        value as u128
    }
}

/// Saturated rate of flow slot `slot`; zero for a slot past the flow table.
pub open spec fn spec_flow_rate(image: SimulationImage, slot: int) -> u128 {
    if 0 <= slot < image.flows@.len() {
        spec_saturate_u128(spec_hosts_rate(image, image.host_states@.len() as int, slot))
    } else {
        0
    }
}

/// Load a route puts on LP `lp` over its first `upto` links: the flow's rate for every declared
/// link whose source is that LP.
pub open spec fn spec_route_load(image: SimulationImage, route: Seq<crate::event::LinkId>, upto: int, lp: int, rate: u128) -> int
    decreases upto,
{
    if upto <= 0 {
        0
    } else {
        let link_id = route[upto - 1];
        let counted = link_id.0 < image.links@.len() && image.links@[link_id.0 as int].id == link_id
            && spec_node_slot(image, image.links@[link_id.0 as int].source) == Some(lp as usize);
        spec_route_load(image, route, upto - 1, lp, rate) + if counted {
            rate as int
        } else {
            0int
        }
    }
}

/// Load the first `upto` flows put on LP `lp`.
pub open spec fn spec_flows_load(image: SimulationImage, upto: int, lp: int) -> int
    decreases upto,
{
    if upto <= 0 {
        0
    } else {
        let flow = image.flows@[upto - 1];
        spec_flows_load(image, upto - 1, lp) + spec_route_load(
            image,
            flow.route@,
            flow.route@.len() as int,
            lp,
            spec_flow_rate(image, flow.id.0 as int),
        )
    }
}

/// Every TCP sender has a nonzero segment size.
pub open spec fn spec_tcp_segments_sized(image: SimulationImage) -> bool {
    forall|h: int, j: int|
        0 <= h < image.host_states@.len() && 0 <= j < image.host_states@[h].generators@.len()
            ==> ((#[trigger] image.host_states@[h].generators@[j]).kind matches FlowGeneratorKind::Tcp(
            tcp,
        ) ==> tcp.mss_bytes != 0)
}

proof fn lemma_quotient_below_max(x: u64, m: u64)
    requires
        m > 0,
        x % m != 0,
    ensures
        x / m < u64::MAX,
{
    vstd::arithmetic::div_mod::lemma_fundamental_div_mod(x as int, m as int);
    assert(x / m < u64::MAX) by (nonlinear_arith)
        requires
            m > 0,
            x % m != 0,
            x == m * (x / m) + x % m,
            x % m < m,
            x <= u64::MAX,
    ;
}

fn generator_interval(kind: FlowGeneratorKind, stop_time_ns: u64) -> (interval: u64)
    requires
        kind matches FlowGeneratorKind::Tcp(tcp) ==> tcp.mss_bytes != 0,
    ensures
        interval == spec_generator_interval(kind, stop_time_ns),
{
    match kind {
        FlowGeneratorKind::Constant(constant) => constant.interval_ns,
        FlowGeneratorKind::Tcp(tcp) => {
            let quotient = tcp.total_bytes / tcp.mss_bytes;
            let segments = if tcp.total_bytes % tcp.mss_bytes != 0 {
                proof {
                    lemma_quotient_below_max(tcp.total_bytes, tcp.mss_bytes);
                }
                quotient + 1
            } else {
                quotient
            };
            proof {
                assert(segments == spec_ceil_div(tcp.total_bytes as int, tcp.mss_bytes as int)) by (nonlinear_arith)
                    requires
                        tcp.mss_bytes > 0,
                        segments == tcp.total_bytes / tcp.mss_bytes + if tcp.total_bytes % tcp.mss_bytes != 0 {
                            1int
                        } else {
                            0int
                        },
                ;
            }
            let packets = if segments >= 1 {
                segments
            } else {
                1
            };
            let span = if stop_time_ns >= 1 {
                stop_time_ns
            } else {
                1
            };
            let whole = span / packets;
            let interval = if span % packets != 0 {
                proof {
                    lemma_quotient_below_max(span, packets);
                }
                whole + 1
            } else {
                whole
            };
            proof {
                assert(interval == spec_ceil_div(span as int, packets as int)) by (nonlinear_arith)
                    requires
                        packets > 0,
                        interval == span / packets + if span % packets != 0 {
                            1int
                        } else {
                            0int
                        },
                ;
            }
            interval
        },
        FlowGeneratorKind::Rate(rate) => rate.pacing_interval_ns,
    }
}

proof fn lemma_generators_rate_nonnegative(
    image: SimulationImage,
    generators: Seq<crate::image::FlowGeneratorState>,
    upto: int,
    slot: int,
)
    ensures
        spec_generators_rate(image, generators, upto, slot) >= 0,
    decreases upto,
{
    if upto > 0 {
        lemma_generators_rate_nonnegative(image, generators, upto - 1, slot);
        let interval = spec_generator_interval(generators[upto - 1].kind, image.stop_time_ns);
        if interval > 0 {
            assert(spec_ceil_div(RATE_SCALE as int, interval) >= 0) by (nonlinear_arith)
                requires
                    interval > 0,
            ;
        }
    }
}

proof fn lemma_rates_nonnegative(
    image: SimulationImage,
    hosts: int,
    generators: Seq<crate::image::FlowGeneratorState>,
    upto: int,
    slot: int,
)
    ensures
        spec_hosts_rate(image, hosts, slot) >= 0,
        spec_hosts_rate(image, hosts, slot) + spec_generators_rate(image, generators, upto, slot) >= 0,
    decreases hosts,
{
    lemma_generators_rate_nonnegative(image, generators, upto, slot);
    if hosts > 0 {
        let previous = image.host_states@[hosts - 1].generators@;
        lemma_rates_nonnegative(image, hosts - 1, previous, previous.len() as int, slot);
    }
}

proof fn lemma_route_load_nonnegative(
    image: SimulationImage,
    route: Seq<crate::event::LinkId>,
    upto: int,
    lp: int,
    rate: u128,
)
    ensures
        spec_route_load(image, route, upto, lp, rate) >= 0,
    decreases upto,
{
    if upto > 0 {
        lemma_route_load_nonnegative(image, route, upto - 1, lp, rate);
    }
}

proof fn lemma_loads_nonnegative(
    image: SimulationImage,
    flows: int,
    route: Seq<crate::event::LinkId>,
    upto: int,
    lp: int,
    rate: u128,
)
    ensures
        spec_flows_load(image, flows, lp) >= 0,
        spec_flows_load(image, flows, lp) + spec_route_load(image, route, upto, lp, rate) >= 0,
    decreases flows,
{
    lemma_route_load_nonnegative(image, route, upto, lp, rate);
    if flows > 0 {
        let flow = image.flows@[flows - 1];
        lemma_loads_nonnegative(
            image,
            flows - 1,
            flow.route@,
            flow.route@.len() as int,
            lp,
            spec_flow_rate(image, flow.id.0 as int),
        );
    }
}

proof fn lemma_saturating_step(total: int, step: int)
    requires
        total >= 0,
        step >= 0,
    ensures
        spec_saturate_u128(total + step) == if spec_saturate_u128(total) + step > u128::MAX {
            u128::MAX
        } else {
            (spec_saturate_u128(total) + step) as u128
        },
{
}

/// Image-only packet-rate estimate. Topology structure never enters this calculation: a flow
/// contributes its generator rate to every LP that owns an egress link on its declared route.
pub fn route_offered_load(image: &SimulationImage) -> (loads: Vec<u128>)
    requires
        spec_tcp_segments_sized(*image),
    ensures
        loads@.len() == image.nodes@.len(),
        forall|lp: int|
            0 <= lp < loads@.len() ==> #[trigger] loads@[lp] == spec_saturate_u128(
                spec_flows_load(*image, image.flows@.len() as int, lp),
            ),
{
    let flow_count = image.flows.len();
    let mut rates: Vec<u128> = Vec::new();
    while rates.len() < flow_count
        invariant
            rates@.len() <= flow_count,
            forall|f: int| 0 <= f < rates@.len() ==> #[trigger] rates@[f] == 0,
        decreases flow_count - rates@.len(),
    {
        rates.push(0);
    }
    let mut h: usize = 0;
    while h < image.host_states.len()
        invariant
            h <= image.host_states@.len(),
            flow_count == image.flows@.len(),
            spec_tcp_segments_sized(*image),
            rates@.len() == flow_count,
            forall|f: int|
                0 <= f < flow_count ==> #[trigger] rates@[f] == spec_saturate_u128(
                    spec_hosts_rate(*image, h as int, f),
                ),
        decreases image.host_states@.len() - h,
    {
        let generators = &image.host_states[h].generators;
        let ghost before = rates@;
        let mut j: usize = 0;
        while j < generators.len()
            invariant
                h < image.host_states@.len(),
                generators == image.host_states@[h as int].generators,
                j <= generators@.len(),
                flow_count == image.flows@.len(),
                spec_tcp_segments_sized(*image),
                rates@.len() == flow_count,
                forall|f: int|
                    0 <= f < flow_count ==> #[trigger] rates@[f] == spec_saturate_u128(
                        spec_hosts_rate(*image, h as int, f) + spec_generators_rate(
                            *image,
                            generators@,
                            j as int,
                            f,
                        ),
                    ),
            decreases generators@.len() - j,
        {
            let generator = generators[j];
            proof {
                assert(image.host_states@[h as int].generators@[j as int] == generator);
            }
            let interval = generator_interval(generator.kind, image.stop_time_ns);
            let flow_value = generator.flow.0;
            if flow_value < flow_count as u64 {
                let slot = flow_value as usize;
                if image.flows[slot].id == generator.flow && interval != 0 {
                    let rate = (RATE_SCALE + interval as u128 - 1) / interval as u128;
                    let ghost previous = rates@;
                    rates.set(slot, rates[slot].saturating_add(rate));
                    proof {
                        assert forall|f: int| 0 <= f < flow_count implies #[trigger] rates@[f]
                            == spec_saturate_u128(
                            spec_hosts_rate(*image, h as int, f) + spec_generators_rate(
                                *image,
                                generators@,
                                j + 1,
                                f,
                            ),
                        ) by {
                            let base = spec_hosts_rate(*image, h as int, f) + spec_generators_rate(
                                *image,
                                generators@,
                                j as int,
                                f,
                            );
                            if f == slot {
                                lemma_rates_nonnegative(*image, h as int, generators@, j as int, f);
                                lemma_saturating_step(base, rate as int);
                            } else {
                                assert(rates@[f] == previous[f]);
                            }
                        }
                    }
                }
            }
            j = j + 1;
        }
        proof {
            assert(generators@.len() == image.host_states@[h as int].generators@.len());
        }
        h = h + 1;
    }
    let node_count = image.nodes.len();
    let mut loads: Vec<u128> = Vec::new();
    while loads.len() < node_count
        invariant
            loads@.len() <= node_count,
            forall|lp: int| 0 <= lp < loads@.len() ==> #[trigger] loads@[lp] == 0,
        decreases node_count - loads@.len(),
    {
        loads.push(0);
    }
    let mut f: usize = 0;
    while f < flow_count
        invariant
            f <= flow_count == image.flows@.len(),
            node_count == image.nodes@.len(),
            rates@.len() == flow_count,
            forall|s: int| 0 <= s < flow_count ==> #[trigger] rates@[s] == spec_flow_rate(*image, s),
            loads@.len() == node_count,
            forall|lp: int|
                0 <= lp < node_count ==> #[trigger] loads@[lp] == spec_saturate_u128(
                    spec_flows_load(*image, f as int, lp),
                ),
        decreases flow_count - f,
    {
        let flow = &image.flows[f];
        let flow_value = flow.id.0;
        let rate: u128 = if flow_value < flow_count as u64 {
            rates[flow_value as usize]
        } else {
            0
        };
        proof {
            assert(rate == spec_flow_rate(*image, flow.id.0 as int));
        }
        let route = &flow.route;
        let mut r: usize = 0;
        while r < route.len()
            invariant
                f < flow_count == image.flows@.len(),
                node_count == image.nodes@.len(),
                route == image.flows@[f as int].route,
                r <= route@.len(),
                rate == spec_flow_rate(*image, image.flows@[f as int].id.0 as int),
                loads@.len() == node_count,
                forall|lp: int|
                    0 <= lp < node_count ==> #[trigger] loads@[lp] == spec_saturate_u128(
                        spec_flows_load(*image, f as int, lp) + spec_route_load(
                            *image,
                            route@,
                            r as int,
                            lp,
                            rate,
                        ),
                    ),
            decreases route@.len() - r,
        {
            let link_id = route[r];
            if link_id.0 < image.links.len() as u64 {
                let link = image.links[link_id.0 as usize];
                if link.id == link_id {
                    match node_slot(image, link.source) {
                        Some(lp) => {
                            let ghost previous = loads@;
                            loads.set(lp, loads[lp].saturating_add(rate));
                            proof {
                                assert forall|x: int| 0 <= x < node_count implies #[trigger] loads@[x]
                                    == spec_saturate_u128(
                                    spec_flows_load(*image, f as int, x) + spec_route_load(
                                        *image,
                                        route@,
                                        r + 1,
                                        x,
                                        rate,
                                    ),
                                ) by {
                                    let base = spec_flows_load(*image, f as int, x) + spec_route_load(
                                        *image,
                                        route@,
                                        r as int,
                                        x,
                                        rate,
                                    );
                                    if x == lp {
                                        lemma_loads_nonnegative(*image, f as int, route@, r as int, x, rate);
                                        lemma_saturating_step(base, rate as int);
                                    } else {
                                        assert(loads@[x] == previous[x]);
                                    }
                                }
                            }
                        },
                        None => {},
                    }
                }
            }
            r = r + 1;
        }
        proof {
            assert(route@.len() == image.flows@[f as int].route@.len());
        }
        f = f + 1;
    }
    loads
}

/// Where each LP slot lives for the pool's lifetime: its owning worker and its slot there.
#[derive(Clone, Debug, PartialEq, Eq)]
pub struct StaticPlacement {
    pub workers: usize,
    pub owner_workers: Vec<usize>,
    pub owner_slots: Vec<usize>,
}

impl StaticPlacement {
    /// The owning worker and local slot of LP slot `lp_slot`, when both tables cover it.
    pub fn locate(&self, lp_slot: usize) -> (location: Option<(usize, usize)>)
        ensures
            lp_slot < self.owner_workers@.len() && lp_slot < self.owner_slots@.len() ==> location
                == Some((self.owner_workers@[lp_slot as int], self.owner_slots@[lp_slot as int])),
            !(lp_slot < self.owner_workers@.len() && lp_slot < self.owner_slots@.len()) ==> location
                is None,
    {
        if lp_slot < self.owner_workers.len() && lp_slot < self.owner_slots.len() {
            Some((self.owner_workers[lp_slot], self.owner_slots[lp_slot]))
        } else {
            None
        }
    }
}

// ---------------------------------------------------------------------------------------------
// Failure selection and remote-envelope byte schedule.
// ---------------------------------------------------------------------------------------------

/// The failure reported when two workers fail: the lowest panicked worker wins; a panic beats
/// anything else; any real failure beats a disconnected channel; otherwise the first one stays.
pub open spec fn spec_preferred_error(current: ExecutionError, candidate: ExecutionError) -> ExecutionError {
    match (current, candidate) {
        (
            ExecutionError::WorkerPanicked { worker: current_worker },
            ExecutionError::WorkerPanicked { worker: candidate_worker },
        ) => if candidate_worker < current_worker {
            candidate
        } else {
            current
        },
        (_, ExecutionError::WorkerPanicked { .. }) => candidate,
        (ExecutionError::WorkerPanicked { .. }, _) => current,
        (ExecutionError::WorkerChannelDisconnected, _) => candidate,
        _ => current,
    }
}

pub fn prefer_worker_error(current: ExecutionError, candidate: ExecutionError) -> (preferred: ExecutionError)
    ensures
        preferred == spec_preferred_error(current, candidate),
{
    match (current, candidate) {
        (
            ExecutionError::WorkerPanicked { worker: current_worker },
            ExecutionError::WorkerPanicked { worker: candidate_worker },
        ) => {
            if candidate_worker < current_worker {
                candidate
            } else {
                current
            }
        },
        (_, ExecutionError::WorkerPanicked { .. }) => candidate,
        (ExecutionError::WorkerPanicked { .. }, _) => current,
        (ExecutionError::WorkerChannelDisconnected, _) => candidate,
        _ => current,
    }
}

/// Radix passes over a remote envelope's ordering key, least significant first: eight bytes of
/// origin sequence, eight of origin node, two of phase, eight of time, eight of target.
pub const REMOTE_ORDER_BYTES: usize = 34;

/// Byte `byte` (least significant first) of `value`.
pub open spec fn spec_byte(value: u64, byte: u64) -> u64 {
    (value >> ((byte * 8) as u64)) & 0xff
}

/// The ordering-key byte radix pass `pass` reads from an event.
pub open spec fn spec_remote_order_byte(event: Event, pass: int) -> u64 {
    if 0 <= pass <= 7 {
        spec_byte(event.key.origin_seq, pass as u64)
    } else if 8 <= pass <= 15 {
        spec_byte(event.key.origin_node.0, (pass - 8) as u64)
    } else if 16 <= pass <= 17 {
        spec_byte(event.key.phase as u64, (pass - 16) as u64)
    } else if 18 <= pass <= 25 {
        spec_byte(event.key.time_ns, (pass - 18) as u64)
    } else if 26 <= pass <= 33 {
        spec_byte(event.target.0, (pass - 26) as u64)
    } else {
        0
    }
}

fn byte_of(value: u64, byte: u64) -> (selected: u8)
    requires
        byte <= 7,
    ensures
        selected == spec_byte(value, byte),
{
    let shifted = (value >> (byte * 8)) & 0xff;
    proof {
        assert(((value >> (byte * 8)) & 0xff) <= 0xff) by (bit_vector);
    }
    shifted as u8
}

pub fn remote_order_byte(event: Event, pass: usize) -> (byte: u8)
    ensures
        byte == spec_remote_order_byte(event, pass as int),
{
    if pass <= 7 {
        byte_of(event.key.origin_seq, pass as u64)
    } else if pass <= 15 {
        byte_of(event.key.origin_node.0, (pass - 8) as u64)
    } else if pass <= 17 {
        byte_of(event.key.phase as u64, (pass - 16) as u64)
    } else if pass <= 25 {
        byte_of(event.key.time_ns, (pass - 18) as u64)
    } else if pass <= 33 {
        byte_of(event.target.0, (pass - 26) as u64)
    } else {
        0
    }
}

/// Pass bits `first_pass + b` of the bytes `b` of `value` that are nonzero, for the first
/// `upto` bytes.
pub open spec fn spec_varying_byte_mask(value: u64, first_pass: int, upto: int) -> u64
    decreases upto,
{
    if upto <= 0 {
        0
    } else if spec_byte(value, (upto - 1) as u64) != 0 {
        spec_varying_byte_mask(value, first_pass, upto - 1) | (1u64 << (first_pass + upto - 1) as u64)
    } else {
        spec_varying_byte_mask(value, first_pass, upto - 1)
    }
}

/// The radix passes, among `first_pass .. first_pass + 8`, whose byte of `value` is nonzero.
pub fn varying_byte_mask(value: u64, first_pass: usize) -> (mask: u64)
    requires
        first_pass + 8 <= 64,
    ensures
        mask == spec_varying_byte_mask(value, first_pass as int, 8),
{
    let mut mask: u64 = 0;
    let mut byte: usize = 0;
    while byte < 8
        invariant
            byte <= 8,
            first_pass + 8 <= 64,
            mask == spec_varying_byte_mask(value, first_pass as int, byte as int),
        decreases 8 - byte,
    {
        let shift = (byte * 8) as u64;
        let selected = value & (0xff_u64 << shift);
        proof {
            assert(shift < 64);
            assert((value & (0xffu64 << shift) != 0) == ((value >> shift) & 0xff != 0)) by (bit_vector)
                requires
                    shift < 64,
            ;
        }
        if selected != 0 {
            mask = mask | (1_u64 << ((first_pass + byte) as u64));
        }
        byte = byte + 1;
    }
    mask
}

// ---------------------------------------------------------------------------------------------
// Round partitioning.
// ---------------------------------------------------------------------------------------------

/// LPT issue order: larger work estimates first, ties in their given order.
#[derive(Clone, Copy, Debug, PartialEq, Eq, Structural)]
pub struct LptOrder(pub LpWorkEstimate);

impl SortKey for LptOrder {
    open spec fn spec_le(self, other: Self) -> bool {
        self.0.estimated_events >= other.0.estimated_events
    }

    fn le_key(&self, other: &Self) -> (le: bool) {
        self.0.estimated_events >= other.0.estimated_events
    }

    proof fn lemma_total(a: Self, b: Self) {
    }

    proof fn lemma_transitive(a: Self, b: Self, c: Self) {
    }
}

/// The active LPs in LPT issue order.
pub open spec fn spec_lpt_order(active: Seq<LpWorkEstimate>) -> Seq<LpWorkEstimate> {
    spec_merge_sort(active.map_values(|item: LpWorkEstimate| LptOrder(item))).map_values(
        |key: LptOrder| key.0,
    )
}

/// An LP is a straggler when a threshold is set and its estimate exceeds it.
pub open spec fn spec_is_straggler(item: LpWorkEstimate, threshold: Option<u64>) -> bool {
    threshold matches Some(limit) && item.estimated_events > limit
}

/// The items of `s`, in order, that are (or are not) stragglers.
pub open spec fn spec_select(s: Seq<LpWorkEstimate>, threshold: Option<u64>, stragglers: bool) -> Seq<
    LpWorkEstimate,
>
    decreases s.len(),
{
    if s.len() == 0 {
        Seq::empty()
    } else if spec_is_straggler(s.last(), threshold) == stragglers {
        spec_select(s.drop_last(), threshold, stragglers).push(s.last())
    } else {
        spec_select(s.drop_last(), threshold, stragglers)
    }
}

/// Workers reserved for stragglers this round: none without stragglers; otherwise the configured
/// count, at most one per straggler and at most every worker but one while bulk work remains.
pub open spec fn spec_dedicated_count(config: CpuConfig, stragglers: int, bulk: int) -> int {
    if stragglers == 0 {
        0
    } else {
        let available = if bulk == 0 {
            config.workers as int
        } else if config.workers >= 2 {
            config.workers - 1
        } else {
            1
        };
        let wanted = if config.dedicated_straggler_workers <= stragglers {
            config.dedicated_straggler_workers as int
        } else {
            stragglers
        };
        if wanted <= available {
            wanted
        } else {
            available
        }
    }
}

/// Records per bulk chunk: an even split over the bulk workers, or the fixed size.
pub open spec fn spec_bulk_chunk_size(config: CpuConfig, bulk: int, bulk_workers: int) -> int {
    match config.granularity {
        ChunkGranularity::Static => {
            let divisor = if bulk_workers >= 1 {
                bulk_workers
            } else {
                1
            };
            let size = (bulk + divisor - 1) / divisor;
            if size >= 1 {
                size
            } else {
                1
            }
        },
        ChunkGranularity::Fixed(size) => size as int,
    }
}

/// Number of chunks of `size` items `count` items fill; none when the size is zero.
pub open spec fn spec_chunk_count(count: int, size: int) -> int {
    if size <= 0 {
        0
    } else {
        (count + size - 1) / size
    }
}

/// One round's dispatch plan.
#[derive(Clone, Debug, PartialEq, Eq)]
pub struct RoundAssignment {
    pub partition: WorkPartition,
    pub dedicated_workers: Vec<usize>,
    pub bulk_workers: Vec<usize>,
}

fn lpt_order(active: &Vec<LpWorkEstimate>) -> (ordered: Vec<LpWorkEstimate>)
    ensures
        ordered@ == spec_lpt_order(active@),
{
    let mut keys: Vec<LptOrder> = Vec::new();
    let mut i: usize = 0;
    while i < active.len()
        invariant
            i <= active@.len(),
            keys@ == active@.take(i as int).map_values(|item: LpWorkEstimate| LptOrder(item)),
        decreases active@.len() - i,
    {
        keys.push(LptOrder(active[i]));
        assert(keys@ =~= active@.take(i + 1).map_values(|item: LpWorkEstimate| LptOrder(item)));
        i = i + 1;
    }
    assert(active@.take(i as int) =~= active@);
    let sorted = merge_sort(&keys);
    let mut ordered: Vec<LpWorkEstimate> = Vec::new();
    let mut k: usize = 0;
    while k < sorted.len()
        invariant
            k <= sorted@.len(),
            ordered@ == sorted@.take(k as int).map_values(|key: LptOrder| key.0),
        decreases sorted@.len() - k,
    {
        ordered.push(sorted[k].0);
        assert(ordered@ =~= sorted@.take(k + 1).map_values(|key: LptOrder| key.0));
        k = k + 1;
    }
    assert(sorted@.take(k as int) =~= sorted@);
    ordered
}

/// Splits a round's active LPs into LPT-ordered straggler and bulk work: each straggler is its
/// own chunk on a reserved worker, and bulk LPs are cut into consecutive chunks for the
/// remaining workers.
pub fn partition_round(active: Vec<LpWorkEstimate>, config: CpuConfig) -> (assignment: RoundAssignment)
    ensures
        ({
            let ordered = spec_lpt_order(active@);
            let stragglers = spec_select(ordered, config.straggler_threshold_events, true);
            let bulk = spec_select(ordered, config.straggler_threshold_events, false);
            let dedicated = spec_dedicated_count(config, stragglers.len() as int, bulk.len() as int);
            let bulk_workers = assignment.bulk_workers@;
            let size = spec_bulk_chunk_size(config, bulk.len() as int, bulk_workers.len() as int);
            &&& assignment.partition.stragglers@ == stragglers
            &&& assignment.dedicated_workers@ == Seq::new(dedicated as nat, |w: int| w as usize)
            &&& assignment.partition.reserved_straggler_workers@ == assignment.dedicated_workers@
            &&& bulk_workers == if dedicated < config.workers {
                Seq::new((config.workers - dedicated) as nat, |w: int| (dedicated + w) as usize)
            } else if bulk.len() > 0 {
                seq![0usize]
            } else {
                Seq::empty()
            }
            &&& assignment.partition.bulk_chunks@.len() == spec_chunk_count(bulk.len() as int, size)
            &&& forall|k: int|
                0 <= k < assignment.partition.bulk_chunks@.len() ==> (
                #[trigger] assignment.partition.bulk_chunks@[k])@ == bulk.subrange(
                    k * size,
                    if (k + 1) * size <= bulk.len() {
                        (k + 1) * size
                    } else {
                        bulk.len() as int
                    },
                )
        }),
{
    let ordered = lpt_order(&active);
    let threshold = config.straggler_threshold_events;
    let mut stragglers: Vec<LpWorkEstimate> = Vec::new();
    let mut bulk: Vec<LpWorkEstimate> = Vec::new();
    let mut i: usize = 0;
    while i < ordered.len()
        invariant
            i <= ordered@.len(),
            stragglers@ == spec_select(ordered@.take(i as int), threshold, true),
            bulk@ == spec_select(ordered@.take(i as int), threshold, false),
        decreases ordered@.len() - i,
    {
        let item = ordered[i];
        let straggler = match threshold {
            Some(limit) => item.estimated_events > limit,
            None => false,
        };
        proof {
            let next = ordered@.take(i + 1);
            assert(next.drop_last() =~= ordered@.take(i as int));
            assert(next.last() == item);
        }
        if straggler {
            stragglers.push(item);
        } else {
            bulk.push(item);
        }
        i = i + 1;
    }
    assert(ordered@.take(i as int) =~= ordered@);
    proof {
        assert(stragglers@.len() + bulk@.len() <= usize::MAX) by {
            lemma_select_split(ordered@, threshold);
        }
    }

    let dedicated_count: usize = if stragglers.len() == 0 {
        0
    } else {
        let available = if bulk.len() == 0 {
            config.workers
        } else if config.workers >= 2 {
            config.workers - 1
        } else {
            1
        };
        let wanted = if config.dedicated_straggler_workers <= stragglers.len() {
            config.dedicated_straggler_workers
        } else {
            stragglers.len()
        };
        if wanted <= available {
            wanted
        } else {
            available
        }
    };
    let mut dedicated_workers: Vec<usize> = Vec::new();
    let mut w: usize = 0;
    while w < dedicated_count
        invariant
            w <= dedicated_count,
            dedicated_workers@ == Seq::new(w as nat, |x: int| x as usize),
        decreases dedicated_count - w,
    {
        dedicated_workers.push(w);
        assert(dedicated_workers@ =~= Seq::new((w + 1) as nat, |x: int| x as usize));
        w = w + 1;
    }
    let mut bulk_workers: Vec<usize> = Vec::new();
    let mut w: usize = dedicated_count;
    while w < config.workers
        invariant
            dedicated_count <= w <= config.workers || (w == dedicated_count && dedicated_count
                >= config.workers),
            bulk_workers@ == Seq::new((w - dedicated_count) as nat, |x: int| (dedicated_count + x) as usize),
        decreases config.workers - w,
    {
        bulk_workers.push(w);
        assert(bulk_workers@ =~= Seq::new((w + 1 - dedicated_count) as nat, |x: int| (dedicated_count + x) as usize));
        w = w + 1;
    }
    if bulk_workers.len() == 0 && bulk.len() > 0 {
        bulk_workers.push(0);
    }
    proof {
        if dedicated_count >= config.workers {
            assert(bulk_workers@.len() == 0 || bulk_workers@ =~= seq![0usize]);
        }
    }

    let size: usize = match config.granularity {
        ChunkGranularity::Static => {
            let divisor = if bulk_workers.len() >= 1 {
                bulk_workers.len()
            } else {
                1
            };
            let quotient = bulk.len() / divisor;
            let chunk = if bulk.len() % divisor != 0 {
                proof {
                    let n = bulk@.len() as int;
                    let d = divisor as int;
                    vstd::arithmetic::div_mod::lemma_fundamental_div_mod(n, d);
                    assert(quotient < usize::MAX) by (nonlinear_arith)
                        requires
                            d >= 1,
                            n % d != 0,
                            n == d * (n / d) + n % d,
                            n % d < d,
                            quotient == n / d,
                            n <= usize::MAX,
                    ;
                }
                quotient + 1
            } else {
                quotient
            };
            proof {
                let ghost count = bulk@.len() as int;
                let ghost d = divisor as int;
                assert(chunk == (count + d - 1) / d) by (nonlinear_arith)
                    requires
                        d >= 1,
                        count >= 0,
                        chunk == count / d + if count % d != 0 {
                            1int
                        } else {
                            0int
                        },
                ;
            }
            if chunk >= 1 {
                chunk
            } else {
                1
            }
        },
        ChunkGranularity::Fixed(size) => size,
    };
    let chunks = split_chunks(&bulk, size);
    let partition = WorkPartition {
        stragglers,
        bulk_chunks: chunks,
        reserved_straggler_workers: copy_workers(&dedicated_workers),
    };
    RoundAssignment { partition, dedicated_workers, bulk_workers }
}

proof fn lemma_select_split(s: Seq<LpWorkEstimate>, threshold: Option<u64>)
    ensures
        spec_select(s, threshold, true).len() + spec_select(s, threshold, false).len() == s.len(),
    decreases s.len(),
{
    if s.len() > 0 {
        lemma_select_split(s.drop_last(), threshold);
    }
}

fn copy_workers(workers: &Vec<usize>) -> (copy: Vec<usize>)
    ensures
        copy@ == workers@,
{
    let mut copy: Vec<usize> = Vec::new();
    let mut i: usize = 0;
    while i < workers.len()
        invariant
            i <= workers@.len(),
            copy@ == workers@.take(i as int),
        decreases workers@.len() - i,
    {
        copy.push(workers[i]);
        assert(copy@ =~= workers@.take(i + 1));
        i = i + 1;
    }
    assert(workers@.take(i as int) =~= workers@);
    copy
}

/// Consecutive chunks of `size` items, the last one shorter; none when the size is zero.
fn split_chunks(items: &Vec<LpWorkEstimate>, size: usize) -> (chunks: Vec<Vec<LpWorkEstimate>>)
    ensures
        chunks@.len() == spec_chunk_count(items@.len() as int, size as int),
        forall|k: int|
            0 <= k < chunks@.len() ==> (#[trigger] chunks@[k])@ == items@.subrange(
                k * size,
                if (k + 1) * size <= items@.len() {
                    (k + 1) * size
                } else {
                    items@.len() as int
                },
            ),
{
    let mut chunks: Vec<Vec<LpWorkEstimate>> = Vec::new();
    if size == 0 {
        return chunks;
    }
    let len = items.len();
    let mut start: usize = 0;
    proof {
        assert(chunks@.len() == 0);
        assert(chunks@.len() * size == 0);
        assert(spec_chunk_count(0, size as int) == 0) by (nonlinear_arith)
            requires
                size > 0,
        ;
    }
    while start < len
        invariant
            size > 0,
            len == items@.len(),
            start <= len,
            start == chunks@.len() * size || start == len,
            chunks@.len() * size <= start + size,
            start < len ==> start == chunks@.len() * size,
            chunks@.len() == spec_chunk_count(start as int, size as int),
            forall|k: int|
                0 <= k < chunks@.len() ==> (#[trigger] chunks@[k])@ == items@.subrange(
                    k * size,
                    if (k + 1) * size <= len {
                        (k + 1) * size
                    } else {
                        len as int
                    },
                ),
        decreases len - start,
    {
        let end = if size <= len - start {
            start + size
        } else {
            len
        };
        let mut chunk: Vec<LpWorkEstimate> = Vec::new();
        let mut i = start;
        while i < end
            invariant
                start <= i <= end <= len == items@.len(),
                chunk@ == items@.subrange(start as int, i as int),
            decreases end - i,
        {
            chunk.push(items[i]);
            assert(chunk@ =~= items@.subrange(start as int, i + 1));
            i = i + 1;
        }
        let ghost k = chunks@.len() as int;
        proof {
            assert(start == k * size);
            assert((k + 1) * size == start + size) by (nonlinear_arith)
                requires
                    start == k * size,
            ;
            if end == len {
                assert(spec_chunk_count(end as int, size as int) == k + 1) by (nonlinear_arith)
                    requires
                        size > 0,
                        start == k * size,
                        start < end,
                        end <= start + size,
                ;
            } else {
                assert(spec_chunk_count(end as int, size as int) == k + 1) by (nonlinear_arith)
                    requires
                        size > 0,
                        end == (k + 1) * size,
                ;
            }
        }
        chunks.push(chunk);
        start = end;
    }
    proof {
        assert(spec_chunk_count(len as int, size as int) == chunks@.len());
    }
    chunks
}

/// What the last round measured of one executed LP.
#[derive(Clone, Copy, Debug, PartialEq, Eq, Structural)]
pub struct ExecutedLp {
    pub timing: LpExecutionTiming,
    pub estimated_events: u64,
}

/// Straggler report order: larger estimates first, then ascending node.
#[derive(Clone, Copy, Debug, PartialEq, Eq, Structural)]
pub struct StragglerOrder(pub LpWorkEstimate);

impl SortKey for StragglerOrder {
    open spec fn spec_le(self, other: Self) -> bool {
        self.0.estimated_events > other.0.estimated_events || (self.0.estimated_events
            == other.0.estimated_events && self.0.node.0 <= other.0.node.0)
    }

    fn le_key(&self, other: &Self) -> (le: bool) {
        self.0.estimated_events > other.0.estimated_events || (self.0.estimated_events
            == other.0.estimated_events && self.0.node.0 <= other.0.node.0)
    }

    proof fn lemma_total(a: Self, b: Self) {
    }

    proof fn lemma_transitive(a: Self, b: Self, c: Self) {
    }
}

/// Ascending node order.
#[derive(Clone, Copy, Debug, PartialEq, Eq, Structural)]
pub struct NodeOrder(pub LpWorkEstimate);

impl SortKey for NodeOrder {
    open spec fn spec_le(self, other: Self) -> bool {
        self.0.node.0 <= other.0.node.0
    }

    fn le_key(&self, other: &Self) -> (le: bool) {
        self.0.node.0 <= other.0.node.0
    }

    proof fn lemma_total(a: Self, b: Self) {
    }

    proof fn lemma_transitive(a: Self, b: Self, c: Self) {
    }
}

/// Ascending worker order.
#[derive(Clone, Copy, Debug, PartialEq, Eq, Structural)]
pub struct WorkerOrder(pub usize);

impl SortKey for WorkerOrder {
    open spec fn spec_le(self, other: Self) -> bool {
        self.0 <= other.0
    }

    fn le_key(&self, other: &Self) -> (le: bool) {
        self.0 <= other.0
    }

    proof fn lemma_total(a: Self, b: Self) {
    }

    proof fn lemma_transitive(a: Self, b: Self, c: Self) {
    }
}

pub open spec fn spec_estimate_of(item: ExecutedLp) -> LpWorkEstimate {
    LpWorkEstimate { node: item.timing.node, estimated_events: item.estimated_events }
}

/// Estimates, in order, of the executed LPs of one class.
pub open spec fn spec_class_estimates(executed: Seq<ExecutedLp>, class: WorkClass) -> Seq<LpWorkEstimate>
    decreases executed.len(),
{
    if executed.len() == 0 {
        Seq::empty()
    } else if executed.last().timing.class == class {
        spec_class_estimates(executed.drop_last(), class).push(spec_estimate_of(executed.last()))
    } else {
        spec_class_estimates(executed.drop_last(), class)
    }
}

/// Estimates, in order, of the bulk LPs worker `worker` executed.
pub open spec fn spec_worker_bulk(executed: Seq<ExecutedLp>, worker: int) -> Seq<LpWorkEstimate>
    decreases executed.len(),
{
    if executed.len() == 0 {
        Seq::empty()
    } else if executed.last().timing.class == WorkClass::Bulk && executed.last().timing.worker == worker {
        spec_worker_bulk(executed.drop_last(), worker).push(spec_estimate_of(executed.last()))
    } else {
        spec_worker_bulk(executed.drop_last(), worker)
    }
}

/// Workers, in order, that executed a straggler.
pub open spec fn spec_straggler_workers(executed: Seq<ExecutedLp>) -> Seq<WorkerOrder>
    decreases executed.len(),
{
    if executed.len() == 0 {
        Seq::empty()
    } else if executed.last().timing.class == WorkClass::Straggler {
        spec_straggler_workers(executed.drop_last()).push(WorkerOrder(executed.last().timing.worker))
    } else {
        spec_straggler_workers(executed.drop_last())
    }
}

/// A sorted worker list with repeats removed.
pub open spec fn spec_dedup(s: Seq<WorkerOrder>) -> Seq<usize>
    decreases s.len(),
{
    if s.len() == 0 {
        Seq::empty()
    } else if s.len() >= 2 && s[s.len() - 2].0 == s.last().0 {
        spec_dedup(s.drop_last())
    } else {
        spec_dedup(s.drop_last()).push(s.last().0)
    }
}

pub open spec fn spec_straggler_report(executed: Seq<ExecutedLp>) -> Seq<LpWorkEstimate> {
    spec_merge_sort(
        spec_class_estimates(executed, WorkClass::Straggler).map_values(
            |item: LpWorkEstimate| StragglerOrder(item),
        ),
    ).map_values(|key: StragglerOrder| key.0)
}

pub open spec fn spec_bulk_chunk(executed: Seq<ExecutedLp>, worker: int) -> Seq<LpWorkEstimate> {
    spec_merge_sort(
        spec_worker_bulk(executed, worker).map_values(|item: LpWorkEstimate| NodeOrder(item)),
    ).map_values(|key: NodeOrder| key.0)
}

/// Node-ordered bulk chunks of the first `upto` workers, skipping workers with no bulk LP.
pub open spec fn spec_bulk_chunks(executed: Seq<ExecutedLp>, upto: int) -> Seq<Seq<LpWorkEstimate>>
    decreases upto,
{
    if upto <= 0 {
        Seq::empty()
    } else if spec_worker_bulk(executed, upto - 1).len() > 0 {
        spec_bulk_chunks(executed, upto - 1).push(spec_bulk_chunk(executed, upto - 1))
    } else {
        spec_bulk_chunks(executed, upto - 1)
    }
}

fn sorted_stragglers(items: &Vec<LpWorkEstimate>) -> (sorted: Vec<LpWorkEstimate>)
    ensures
        sorted@ == spec_merge_sort(items@.map_values(|item: LpWorkEstimate| StragglerOrder(item))).map_values(
            |key: StragglerOrder| key.0,
        ),
{
    let mut keys: Vec<StragglerOrder> = Vec::new();
    let mut i: usize = 0;
    while i < items.len()
        invariant
            i <= items@.len(),
            keys@ == items@.take(i as int).map_values(|item: LpWorkEstimate| StragglerOrder(item)),
        decreases items@.len() - i,
    {
        keys.push(StragglerOrder(items[i]));
        assert(keys@ =~= items@.take(i + 1).map_values(|item: LpWorkEstimate| StragglerOrder(item)));
        i = i + 1;
    }
    assert(items@.take(i as int) =~= items@);
    let ordered = merge_sort(&keys);
    let mut sorted: Vec<LpWorkEstimate> = Vec::new();
    let mut k: usize = 0;
    while k < ordered.len()
        invariant
            k <= ordered@.len(),
            sorted@ == ordered@.take(k as int).map_values(|key: StragglerOrder| key.0),
        decreases ordered@.len() - k,
    {
        sorted.push(ordered[k].0);
        assert(sorted@ =~= ordered@.take(k + 1).map_values(|key: StragglerOrder| key.0));
        k = k + 1;
    }
    assert(ordered@.take(k as int) =~= ordered@);
    sorted
}

fn sorted_by_node(items: &Vec<LpWorkEstimate>) -> (sorted: Vec<LpWorkEstimate>)
    ensures
        sorted@ == spec_merge_sort(items@.map_values(|item: LpWorkEstimate| NodeOrder(item))).map_values(
            |key: NodeOrder| key.0,
        ),
{
    let mut keys: Vec<NodeOrder> = Vec::new();
    let mut i: usize = 0;
    while i < items.len()
        invariant
            i <= items@.len(),
            keys@ == items@.take(i as int).map_values(|item: LpWorkEstimate| NodeOrder(item)),
        decreases items@.len() - i,
    {
        keys.push(NodeOrder(items[i]));
        assert(keys@ =~= items@.take(i + 1).map_values(|item: LpWorkEstimate| NodeOrder(item)));
        i = i + 1;
    }
    assert(items@.take(i as int) =~= items@);
    let ordered = merge_sort(&keys);
    let mut sorted: Vec<LpWorkEstimate> = Vec::new();
    let mut k: usize = 0;
    while k < ordered.len()
        invariant
            k <= ordered@.len(),
            sorted@ == ordered@.take(k as int).map_values(|key: NodeOrder| key.0),
        decreases ordered@.len() - k,
    {
        sorted.push(ordered[k].0);
        assert(sorted@ =~= ordered@.take(k + 1).map_values(|key: NodeOrder| key.0));
        k = k + 1;
    }
    assert(ordered@.take(k as int) =~= ordered@);
    sorted
}

/// The last round's placement, replayed as this round's partition shape: stragglers by
/// descending estimate then node, each worker's bulk LPs by node, and the distinct workers that
/// ran stragglers. Without classification the partition is empty.
pub fn static_work_partition(executed: &[ExecutedLp], classification_enabled: bool, workers: usize) -> (partition: WorkPartition)
    requires
        forall|i: int|
            0 <= i < executed@.len() && (#[trigger] executed@[i]).timing.class == WorkClass::Bulk
                ==> executed@[i].timing.worker < workers,
    ensures
        !classification_enabled ==> partition.stragglers@.len() == 0 && partition.bulk_chunks@.len() == 0
            && partition.reserved_straggler_workers@.len() == 0,
        classification_enabled ==> {
            &&& partition.stragglers@ == spec_straggler_report(executed@)
            &&& partition.bulk_chunks@.len() == spec_bulk_chunks(executed@, workers as int).len()
            &&& forall|k: int|
                0 <= k < partition.bulk_chunks@.len() ==> (#[trigger] partition.bulk_chunks@[k])@
                    == spec_bulk_chunks(executed@, workers as int)[k]
            &&& partition.reserved_straggler_workers@ == spec_dedup(
                spec_merge_sort(spec_straggler_workers(executed@)),
            )
        },
{
    if !classification_enabled {
        return WorkPartition { stragglers: Vec::new(), bulk_chunks: Vec::new(), reserved_straggler_workers: Vec::new() };
    }
    // Stragglers, in executed order, and the workers that ran them.
    let mut stragglers: Vec<LpWorkEstimate> = Vec::new();
    let mut straggler_workers: Vec<WorkerOrder> = Vec::new();
    let mut i: usize = 0;
    while i < executed.len()
        invariant
            i <= executed@.len(),
            stragglers@ == spec_class_estimates(executed@.take(i as int), WorkClass::Straggler),
            straggler_workers@ == spec_straggler_workers(executed@.take(i as int)),
        decreases executed@.len() - i,
    {
        let item = executed[i];
        proof {
            assert(executed@.take(i + 1).drop_last() =~= executed@.take(i as int));
        }
        if item.timing.class == WorkClass::Straggler {
            stragglers.push(LpWorkEstimate { node: item.timing.node, estimated_events: item.estimated_events });
            straggler_workers.push(WorkerOrder(item.timing.worker));
        }
        i = i + 1;
    }
    assert(executed@.take(i as int) =~= executed@);
    let stragglers = sorted_stragglers(&stragglers);

    // Each worker's bulk LPs, by node, skipping idle workers.
    let mut bulk_chunks: Vec<Vec<LpWorkEstimate>> = Vec::new();
    let mut worker: usize = 0;
    while worker < workers
        invariant
            worker <= workers,
            bulk_chunks@.len() == spec_bulk_chunks(executed@, worker as int).len(),
            forall|k: int|
                0 <= k < bulk_chunks@.len() ==> (#[trigger] bulk_chunks@[k])@ == spec_bulk_chunks(
                    executed@,
                    worker as int,
                )[k],
        decreases workers - worker,
    {
        let mut items: Vec<LpWorkEstimate> = Vec::new();
        let mut j: usize = 0;
        while j < executed.len()
            invariant
                j <= executed@.len(),
                items@ == spec_worker_bulk(executed@.take(j as int), worker as int),
            decreases executed@.len() - j,
        {
            let item = executed[j];
            proof {
                assert(executed@.take(j + 1).drop_last() =~= executed@.take(j as int));
            }
            if item.timing.class == WorkClass::Bulk && item.timing.worker == worker {
                items.push(LpWorkEstimate { node: item.timing.node, estimated_events: item.estimated_events });
            }
            j = j + 1;
        }
        assert(executed@.take(j as int) =~= executed@);
        if items.len() > 0 {
            let chunk = sorted_by_node(&items);
            let ghost before = bulk_chunks@;
            bulk_chunks.push(chunk);
            proof {
                assert forall|k: int| 0 <= k < bulk_chunks@.len() implies (#[trigger] bulk_chunks@[k])@
                    == spec_bulk_chunks(executed@, worker + 1)[k] by {
                    if k < before.len() {
                        assert(bulk_chunks@[k] == before[k]);
                    }
                }
            }
        }
        worker = worker + 1;
    }

    // Distinct straggler workers, ascending.
    let ordered = merge_sort(&straggler_workers);
    let mut reserved: Vec<usize> = Vec::new();
    let mut k: usize = 0;
    while k < ordered.len()
        invariant
            k <= ordered@.len(),
            reserved@ == spec_dedup(ordered@.take(k as int)),
            k > 0 && reserved@.len() > 0 ==> reserved@.last() == ordered@[k - 1].0,
            k > 0 ==> reserved@.len() > 0,
        decreases ordered@.len() - k,
    {
        let value = ordered[k].0;
        proof {
            let next = ordered@.take(k + 1);
            assert(next.drop_last() =~= ordered@.take(k as int));
        }
        if k == 0 || ordered[k - 1].0 != value {
            reserved.push(value);
        }
        k = k + 1;
    }
    assert(ordered@.take(k as int) =~= ordered@);
    WorkPartition { stragglers, bulk_chunks, reserved_straggler_workers: reserved }
}

} // verus!
