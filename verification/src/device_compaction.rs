//! Deterministic sizing for device-side readback compaction.
//!
//! For each striped record arena, a plan lists the exact set of live regions, in decode order,
//! with the dense destination each is gathered to. Every number in a plan is a function of words
//! the device wrote (an arena offset, a ring capacity, a ring head, a live count) plus the record
//! width the planner fixed. The destinations are the exclusive prefix sum of the live counts, taken
//! in the order the decode walks the entities, which makes the gathered buffer directly indexable.

use vstd::prelude::*;
use crate::aqm_trace::{push_decimal, push_text, spec_decimal};

verus! {

/// Words per entity row in the plan buffer handed to the gather kernel:
/// `[source word offset, ring capacity in records, ring head, live record count,
/// destination word offset]`.
pub const COMPACTION_PLAN_ROW_WORDS: usize = 5;

/// How an arena's live records are addressed inside one entity's region.
#[derive(Clone, Copy, Debug, PartialEq, Eq, Structural)]
pub enum CompactionShape {
    /// Live records occupy `[offset, offset + count)`.
    Linear,
    /// Logical record `i` lives at physical slot `(head + i) mod max(capacity, 1)`.
    Ring,
}

/// One entity's live region inside a striped record arena, as the device described it.
#[derive(Clone, Copy, Debug, PartialEq, Eq, Structural)]
pub struct CompactionEntity {
    /// Absolute word offset of the entity's region inside the source plane.
    pub source_words: u64,
    /// Ring capacity in records. Ignored by `CompactionShape::Linear`.
    pub capacity: u64,
    /// Physical slot of logical record 0. Ignored by `CompactionShape::Linear`.
    pub head: u64,
    /// Live record count: the device-written occupancy word.
    pub count: u64,
}

pub open spec fn spec_max_u64(a: u64, b: u64) -> u64 {
    if a >= b { a } else { b }
}

/// Physical slot of logical record `index` under a shape.
pub open spec fn spec_physical(e: CompactionEntity, shape: CompactionShape, index: int) -> int {
    match shape {
        CompactionShape::Linear => index,
        CompactionShape::Ring => (e.head + index) % (spec_max_u64(e.capacity, 1) as int),
    }
}

/// Absolute source word offset of logical record `index`.
pub open spec fn spec_slot(e: CompactionEntity, shape: CompactionShape, record_words: int, index: int) -> int {
    e.source_words + spec_physical(e, shape, index) * record_words
}

/// Records of the region the gather may read: the live prefix, or the whole ring.
pub open spec fn spec_span(e: CompactionEntity, shape: CompactionShape) -> int {
    match shape {
        CompactionShape::Linear => e.count as int,
        CompactionShape::Ring => spec_max_u64(e.capacity, e.count) as int,
    }
}

/// An entity whose region lies inside the source plane and whose ring is not over-full.
pub open spec fn spec_entity_fits(
    e: CompactionEntity,
    shape: CompactionShape,
    record_words: int,
    plane_words: int,
) -> bool {
    &&& (shape is Ring ==> e.count <= spec_max_u64(e.capacity, 1))
    &&& spec_span(e, shape) * record_words + e.source_words <= plane_words
}

/// Total live records of the first `n` entities.
pub open spec fn spec_records_before(entities: Seq<CompactionEntity>, n: int) -> int
    decreases n,
{
    if n <= 0 {
        0
    } else {
        spec_records_before(entities, n - 1) + entities[n - 1].count
    }
}

/// The plan conditions under which `CompactionPlan::new` succeeds.
pub open spec fn spec_plan_ok(
    shape: CompactionShape,
    record_words: usize,
    entities: Seq<CompactionEntity>,
    plane_words: usize,
) -> bool {
    &&& record_words > 0
    &&& forall|i: int|
        0 <= i < entities.len() ==> spec_entity_fits(
            #[trigger] entities[i],
            shape,
            record_words as int,
            plane_words as int,
        )
    &&& spec_records_before(entities, entities.len() as int) <= u64::MAX
    &&& spec_records_before(entities, entities.len() as int) * record_words <= u64::MAX
    &&& spec_records_before(entities, entities.len() as int) * record_words <= usize::MAX
}

/// Sizing failure while building a compaction plan.
///
/// Every failure means a device-written meta word describes a region the source plane cannot
/// hold: the readback refuses instead of silently truncating complete state.
#[derive(Clone, Debug, PartialEq, Eq)]
pub struct CompactionError(pub String);

/// Text of the zero-record-width refusal.
pub open spec fn spec_zero_width_text(arena: Seq<char>) -> Seq<char> {
    arena + " compaction needs a nonzero record width"@
}

/// Text of the over-full ring refusal.
pub open spec fn spec_overfull_ring_text(arena: Seq<char>, count: u64, capacity: u64) -> Seq<char> {
    arena + " ring reports "@ + spec_decimal(count as nat) + " live records in a "@ + spec_decimal(
        capacity as nat,
    ) + "-record ring"@
}

/// Text of the word-offset overflow refusal.
pub open spec fn spec_region_overflow_text(arena: Seq<char>) -> Seq<char> {
    arena + " live region overflows a u64 word offset"@
}

/// Text of the past-the-plane refusal.
pub open spec fn spec_past_plane_text(arena: Seq<char>, end: u64, plane_words: usize) -> Seq<char> {
    arena + " live region ends at word "@ + spec_decimal(end as nat) + ", past the "@ + spec_decimal(
        plane_words as nat,
    ) + "-word source plane"@
}

/// Text of the record-count overflow refusal.
pub open spec fn spec_count_overflow_text(arena: Seq<char>) -> Seq<char> {
    arena + " live record count overflows a u64"@
}

/// Text of the address-space refusal.
pub open spec fn spec_address_space_text(arena: Seq<char>) -> Seq<char> {
    arena + " gathered buffer overflows the host address space"@
}

fn zero_width_message(arena: &str) -> (text: String)
    ensures
        text@ == spec_zero_width_text(arena@),
{
    let mut text = String::new();
    push_text(&mut text, arena);
    push_text(&mut text, " compaction needs a nonzero record width");
    text
}

fn overfull_ring_message(arena: &str, count: u64, capacity: u64) -> (text: String)
    ensures
        text@ == spec_overfull_ring_text(arena@, count, capacity),
{
    let mut text = String::new();
    push_text(&mut text, arena);
    push_text(&mut text, " ring reports ");
    push_decimal(&mut text, count);
    push_text(&mut text, " live records in a ");
    push_decimal(&mut text, capacity);
    push_text(&mut text, "-record ring");
    text
}

fn region_overflow_message(arena: &str) -> (text: String)
    ensures
        text@ == spec_region_overflow_text(arena@),
{
    let mut text = String::new();
    push_text(&mut text, arena);
    push_text(&mut text, " live region overflows a u64 word offset");
    text
}

fn past_plane_message(arena: &str, end: u64, plane_words: usize) -> (text: String)
    ensures
        text@ == spec_past_plane_text(arena@, end, plane_words),
{
    let mut text = String::new();
    push_text(&mut text, arena);
    push_text(&mut text, " live region ends at word ");
    push_decimal(&mut text, end);
    push_text(&mut text, ", past the ");
    push_decimal(&mut text, plane_words as u64);
    push_text(&mut text, "-word source plane");
    text
}

fn count_overflow_message(arena: &str) -> (text: String)
    ensures
        text@ == spec_count_overflow_text(arena@),
{
    let mut text = String::new();
    push_text(&mut text, arena);
    push_text(&mut text, " live record count overflows a u64");
    text
}

fn address_space_message(arena: &str) -> (text: String)
    ensures
        text@ == spec_address_space_text(arena@),
{
    let mut text = String::new();
    push_text(&mut text, arena);
    push_text(&mut text, " gathered buffer overflows the host address space");
    text
}

/// The refusal of the entities from `i` on, after `total` live records before them: the first
/// entity whose ring is over-full, whose region overflows a word offset or runs past the plane,
/// or whose count overflows the running total; then a gathered buffer too large to address.
pub open spec fn spec_refusal_from(
    arena: Seq<char>,
    shape: CompactionShape,
    record_words: usize,
    entities: Seq<CompactionEntity>,
    plane_words: usize,
    i: int,
    total: int,
) -> Option<Seq<char>>
    decreases entities.len() - i,
{
    if i < 0 || i >= entities.len() {
        if total * record_words > u64::MAX || total * record_words > usize::MAX {
            Some(spec_address_space_text(arena))
        } else {
            None
        }
    } else {
        let e = entities[i];
        let span = spec_span(e, shape);
        if shape is Ring && e.count > spec_max_u64(e.capacity, 1) {
            Some(spec_overfull_ring_text(arena, e.count, e.capacity))
        } else if span * record_words > u64::MAX || span * record_words + e.source_words > u64::MAX {
            Some(spec_region_overflow_text(arena))
        } else if span * record_words + e.source_words > plane_words {
            Some(spec_past_plane_text(arena, (span * record_words + e.source_words) as u64, plane_words))
        } else if total + e.count > u64::MAX {
            Some(spec_count_overflow_text(arena))
        } else {
            spec_refusal_from(arena, shape, record_words, entities, plane_words, i + 1, total + e.count)
        }
    }
}

/// Why `CompactionPlan::new` refuses a plan, if it does: a zero record width, then the first
/// refused entity in decode order, then the size of the gathered buffer.
pub open spec fn spec_plan_refusal(
    arena: Seq<char>,
    shape: CompactionShape,
    record_words: usize,
    entities: Seq<CompactionEntity>,
    plane_words: usize,
) -> Option<Seq<char>> {
    if record_words == 0 {
        Some(spec_zero_width_text(arena))
    } else {
        spec_refusal_from(arena, shape, record_words, entities, plane_words, 0, 0)
    }
}

/// A gather request for one striped record arena.
#[derive(Clone, Debug, PartialEq, Eq)]
pub struct CompactionPlan {
    /// Diagnostic name of the arena, used in refusal messages.
    arena: &'static str,
    shape: CompactionShape,
    record_words: usize,
    entities: Vec<CompactionEntity>,
    /// Exclusive prefix sum of the entities' counts, in records. One entry per entity.
    destinations: Vec<u64>,
    /// Total live records: the length, in records, of the gathered buffer.
    total_records: u64,
}

impl CompactionPlan {
    pub closed spec fn arena_name(&self) -> &'static str {
        self.arena
    }

    pub closed spec fn shape(&self) -> CompactionShape {
        self.shape
    }

    pub closed spec fn record_words(&self) -> usize {
        self.record_words
    }

    pub closed spec fn entities(&self) -> Seq<CompactionEntity> {
        self.entities@
    }

    pub closed spec fn destinations(&self) -> Seq<u64> {
        self.destinations@
    }

    pub closed spec fn spec_total_records(&self) -> u64 {
        self.total_records
    }

    /// The plan's internal invariant: destinations are the exclusive prefix sum of the counts,
    /// the total is their sum, and the gathered buffer fits in both `u64` words and `usize`.
    pub open spec fn wf(&self) -> bool {
        &&& self.record_words() > 0
        &&& self.destinations().len() == self.entities().len()
        &&& forall|i: int|
            0 <= i < self.entities().len() ==> #[trigger] self.destinations()[i]
                == spec_records_before(self.entities(), i)
        &&& self.spec_total_records() == spec_records_before(
            self.entities(),
            self.entities().len() as int,
        )
        &&& self.spec_total_records() * self.record_words() <= u64::MAX
        &&& self.spec_total_records() * self.record_words() <= usize::MAX
    }

    /// Builds a plan from device-written meta words. `entities` must already be in decode order.
    pub fn new(
        arena: &'static str,
        shape: CompactionShape,
        record_words: usize,
        entities: Vec<CompactionEntity>,
        source_plane_words: usize,
    ) -> (plan: Result<CompactionPlan, CompactionError>)
        ensures
            plan is Ok <==> spec_plan_ok(shape, record_words, entities@, source_plane_words),
            plan matches Ok(plan) ==> {
                &&& plan.wf()
                &&& plan.arena_name() == arena
                &&& plan.shape() == shape
                &&& plan.record_words() == record_words
                &&& plan.entities() == entities@
            },
            plan matches Err(error) ==> spec_plan_refusal(
                arena@,
                shape,
                record_words,
                entities@,
                source_plane_words,
            ) == Some(error.0@),
    {
        if record_words == 0 {
            return Err(CompactionError(zero_width_message(arena)));
        }
        let mut destinations: Vec<u64> = Vec::new();
        let mut total_records: u64 = 0;
        let mut i: usize = 0;
        while i < entities.len()
            invariant
                record_words > 0,
                i <= entities@.len(),
                destinations@.len() == i,
                forall|j: int|
                    0 <= j < i ==> #[trigger] destinations@[j] == spec_records_before(entities@, j),
                total_records == spec_records_before(entities@, i as int),
                spec_plan_refusal(arena@, shape, record_words, entities@, source_plane_words)
                    == spec_refusal_from(
                    arena@,
                    shape,
                    record_words,
                    entities@,
                    source_plane_words,
                    i as int,
                    total_records as int,
                ),
                forall|j: int|
                    0 <= j < i ==> spec_entity_fits(
                        #[trigger] entities@[j],
                        shape,
                        record_words as int,
                        source_plane_words as int,
                    ),
            decreases entities@.len() - i,
        {
            let entity = entities[i];
            let ring_capacity = if entity.capacity >= 1 { entity.capacity } else { 1 };
            if shape == CompactionShape::Ring && entity.count > ring_capacity {
                return Err(CompactionError(overfull_ring_message(arena, entity.count, entity.capacity)));
            }
            let span: u64 = match shape {
                CompactionShape::Linear => entity.count,
                CompactionShape::Ring => if entity.capacity >= entity.count {
                    entity.capacity
                } else {
                    entity.count
                },
            };
            let end = match span.checked_mul(record_words as u64) {
                None => {
                    proof {
                        assert(span * record_words + entity.source_words > source_plane_words) by (nonlinear_arith)
                            requires
                                span * record_words > u64::MAX,
                                source_plane_words <= u64::MAX,
                        ;
                    }
                    return Err(CompactionError(region_overflow_message(arena)));
                },
                Some(words) => match words.checked_add(entity.source_words) {
                    None => return Err(CompactionError(region_overflow_message(arena))),
                    Some(end) => end,
                },
            };
            if end > source_plane_words as u64 {
                return Err(CompactionError(past_plane_message(arena, end, source_plane_words)));
            }
            destinations.push(total_records);
            total_records = match total_records.checked_add(entity.count) {
                None => {
                    proof {
                        lemma_records_before_monotone(entities@, i + 1, entities@.len() as int);
                    }
                    return Err(CompactionError(count_overflow_message(arena)));
                },
                Some(total) => total,
            };
            i = i + 1;
        }
        let fits = match total_records.checked_mul(record_words as u64) {
            None => false,
            Some(words) => words <= usize::MAX as u64,
        };
        if !fits {
            return Err(CompactionError(address_space_message(arena)));
        }
        Ok(
            CompactionPlan {
                arena,
                shape,
                record_words,
                entities,
                destinations,
                total_records,
            },
        )
    }

    /// Total live records across every entity: the gathered buffer's record length.
    pub fn total_records(&self) -> (records: u64)
        ensures
            records == self.spec_total_records(),
    {
        self.total_records
    }

    /// Total live words: the exact number of words the compacted readback transfers.
    pub fn total_words(&self) -> (words: usize)
        requires
            self.wf(),
        ensures
            words == self.spec_total_records() * self.record_words(),
    {
        assert(self.total_records <= self.total_records * self.record_words) by (nonlinear_arith)
            requires
                self.record_words > 0,
        ;
        (self.total_records as usize) * self.record_words
    }

    /// The number of entities the gather dispatches over.
    pub fn entity_count(&self) -> (count: usize)
        ensures
            count == self.entities().len(),
    {
        self.entities.len()
    }

    /// Destination record index of entity `index`'s logical record 0 in the gathered buffer. An
    /// index past the last entity reads as the end of the buffer.
    pub fn destination(&self, index: usize) -> (destination: usize)
        requires
            self.wf(),
        ensures
            destination == if index < self.entities().len() {
                spec_records_before(self.entities(), index as int)
            } else {
                self.spec_total_records() as int
            },
    {
        proof {
            assert(self.total_records <= self.total_records * self.record_words) by (nonlinear_arith)
                requires
                    self.record_words > 0,
            ;
        }
        if index < self.destinations.len() {
            proof {
                lemma_records_before_monotone(self.entities@, index as int, self.entities@.len() as int);
            }
            self.destinations[index] as usize
        } else {
            self.total_records as usize
        }
    }

    /// Live record count of entity `index`, as the device reported it; zero past the last entity.
    pub fn count(&self, index: usize) -> (count: usize)
        requires
            self.wf(),
        ensures
            count == if index < self.entities().len() {
                self.entities()[index as int].count as int
            } else {
                0int
            },
    {
        if index < self.entities.len() {
            proof {
                lemma_records_before_monotone(self.entities@, index + 1, self.entities@.len() as int);
                lemma_records_before_nonnegative(self.entities@, index as int);
                assert(self.total_records <= self.total_records * self.record_words) by (nonlinear_arith)
                    requires
                        self.record_words > 0,
                ;
            }
            self.entities[index].count as usize
        } else {
            0
        }
    }

    /// The plan buffer uploaded to the device: one five-word row per entity.
    pub fn plan_words(&self) -> (words: Vec<u64>)
        requires
            self.wf(),
        ensures
            words@.len() == COMPACTION_PLAN_ROW_WORDS * self.entities().len(),
            forall|i: int|
                #![trigger self.entities()[i]]
                0 <= i < self.entities().len() ==> {
                    &&& words@[5 * i] == self.entities()[i].source_words
                    &&& words@[5 * i + 1] == self.entities()[i].capacity
                    &&& words@[5 * i + 2] == self.entities()[i].head
                    &&& words@[5 * i + 3] == self.entities()[i].count
                    &&& words@[5 * i + 4] == spec_records_before(self.entities(), i)
                        * self.record_words()
                },
    {
        let mut words: Vec<u64> = Vec::new();
        let mut i: usize = 0;
        while i < self.entities.len()
            invariant
                self.wf(),
                i <= self.entities@.len(),
                words@.len() == 5 * i,
                forall|j: int|
                    #![trigger self.entities@[j]]
                    0 <= j < i ==> {
                        &&& words@[5 * j] == self.entities@[j].source_words
                        &&& words@[5 * j + 1] == self.entities@[j].capacity
                        &&& words@[5 * j + 2] == self.entities@[j].head
                        &&& words@[5 * j + 3] == self.entities@[j].count
                        &&& words@[5 * j + 4] == spec_records_before(self.entities@, j)
                            * self.record_words
                    },
            decreases self.entities@.len() - i,
        {
            let entity = self.entities[i];
            let destination = self.destinations[i];
            proof {
                lemma_records_before_monotone(self.entities@, i as int, self.entities@.len() as int);
                assert(destination * self.record_words <= self.total_records * self.record_words)
                    by (nonlinear_arith)
                    requires
                        destination <= self.total_records,
                ;
            }
            words.push(entity.source_words);
            words.push(entity.capacity);
            words.push(entity.head);
            words.push(entity.count);
            words.push(destination * (self.record_words as u64));
            proof {
                assert forall|j: int|
                    #![trigger self.entities@[j]]
                    0 <= j < i + 1 implies {
                        &&& words@[5 * j] == self.entities@[j].source_words
                        &&& words@[5 * j + 1] == self.entities@[j].capacity
                        &&& words@[5 * j + 2] == self.entities@[j].head
                        &&& words@[5 * j + 3] == self.entities@[j].count
                        &&& words@[5 * j + 4] == spec_records_before(self.entities@, j)
                            * self.record_words
                    } by {
                    if j < i {
                        assert(5 * j + 4 < 5 * i);
                    }
                }
            }
            i = i + 1;
        }
        words
    }

    /// The scalar argument buffer uploaded beside the plan: entity count, record width, and
    /// whether the arena is a ring.
    pub fn argument_words(&self) -> (words: Vec<u64>)
        ensures
            words@ == seq![
                self.entities().len() as u64,
                self.record_words() as u64,
                if self.shape() is Ring { 1u64 } else { 0u64 },
            ],
    {
        let ring: u64 = if self.shape == CompactionShape::Ring { 1 } else { 0 };
        let words = vec![self.entities.len() as u64, self.record_words as u64, ring];
        words
    }

    /// Host mirror of the gather: entity `i`'s logical record `k` lands at record
    /// `destination(i) + k` of the dense buffer.
    pub fn gather(&self, source: &[u64]) -> (gathered: Vec<u64>)
        requires
            self.wf(),
            forall|i: int|
                0 <= i < self.entities().len() ==> spec_entity_fits(
                    #[trigger] self.entities()[i],
                    self.shape(),
                    self.record_words() as int,
                    source@.len() as int,
                ),
            forall|i: int|
                0 <= i < self.entities().len() && self.shape() is Ring ==> #[trigger] self.entities()[i].head
                    + self.entities()[i].count <= u64::MAX,
        ensures
            gathered@.len() == self.spec_total_records() * self.record_words(),
            forall|i: int, k: int, w: int|
                #![trigger self.entities()[i], gathered@[(spec_records_before(self.entities(), i) + k) * self.record_words() + w]]
                0 <= i < self.entities().len() && 0 <= k < self.entities()[i].count && 0 <= w
                    < self.record_words() ==> gathered@[(spec_records_before(self.entities(), i) + k)
                    * self.record_words() + w] == source@[spec_slot(
                    self.entities()[i],
                    self.shape(),
                    self.record_words() as int,
                    k,
                ) + w],
    {
        let total = self.total_words();
        let rw = self.record_words;
        let mut gathered: Vec<u64> = Vec::new();
        while gathered.len() < total
            invariant
                gathered@.len() <= total,
            decreases total - gathered@.len(),
        {
            gathered.push(0);
        }
        let mut i: usize = 0;
        while i < self.entities.len()
            invariant
                self.wf(),
                rw == self.record_words,
                total == self.total_records * rw,
                gathered@.len() == total,
                i <= self.entities@.len(),
                forall|e: int|
                    0 <= e < self.entities@.len() ==> spec_entity_fits(
                        #[trigger] self.entities@[e],
                        self.shape,
                        rw as int,
                        source@.len() as int,
                    ),
                forall|e: int|
                    0 <= e < self.entities@.len() && self.shape is Ring ==> #[trigger] self.entities@[e].head
                        + self.entities@[e].count <= u64::MAX,
                forall|e: int, k: int, w: int|
                    #![trigger self.entities@[e], gathered@[(spec_records_before(self.entities@, e) + k) * rw + w]]
                    0 <= e < i && 0 <= k < self.entities@[e].count && 0 <= w < rw
                        ==> gathered@[(spec_records_before(self.entities@, e) + k) * rw + w]
                        == source@[spec_slot(self.entities@[e], self.shape, rw as int, k) + w],
            decreases self.entities@.len() - i,
        {
            let entity = self.entities[i];
            let base = self.destinations[i];
            proof {
                lemma_records_before_monotone(self.entities@, i + 1, self.entities@.len() as int);
            }
            let mut k: u64 = 0;
            while k < entity.count
                invariant
                    self.wf(),
                    rw == self.record_words,
                    total == self.total_records * rw,
                    gathered@.len() == total,
                    i < self.entities@.len(),
                    entity == self.entities@[i as int],
                    base == spec_records_before(self.entities@, i as int),
                    base + entity.count <= self.total_records,
                    k <= entity.count,
                    spec_entity_fits(entity, self.shape, rw as int, source@.len() as int),
                    self.shape is Ring ==> entity.head + entity.count <= u64::MAX,
                    forall|e: int, k2: int, w: int|
                        #![trigger self.entities@[e], gathered@[(spec_records_before(self.entities@, e) + k2) * rw + w]]
                        0 <= e < i && 0 <= k2 < self.entities@[e].count && 0 <= w < rw
                            ==> gathered@[(spec_records_before(self.entities@, e) + k2) * rw + w]
                            == source@[spec_slot(self.entities@[e], self.shape, rw as int, k2) + w],
                    forall|k2: int, w: int|
                        #![trigger gathered@[(base + k2) * rw + w]]
                        0 <= k2 < k && 0 <= w < rw ==> gathered@[(base + k2) * rw + w]
                            == source@[spec_slot(entity, self.shape, rw as int, k2) + w],
                decreases entity.count - k,
            {
                let physical: u64 = match self.shape {
                    CompactionShape::Linear => k,
                    CompactionShape::Ring => {
                        let ring = if entity.capacity >= 1 { entity.capacity } else { 1 };
                        (entity.head + k) % ring
                    },
                };
                proof {
                    lemma_physical_in_span(entity, self.shape, k as int);
                    lemma_slot_bounds(entity, self.shape, rw as int, k as int, source@.len() as int);
                }
                proof {
                    assert((base + k + 1) * rw <= self.total_records * rw) by (nonlinear_arith)
                        requires
                            base + k + 1 <= self.total_records,
                    ;
                    assert((base + k) * rw + rw == (base + k + 1) * rw) by (nonlinear_arith);
                    assert(physical == spec_physical(entity, self.shape, k as int));
                    assert(physical <= physical * rw) by (nonlinear_arith)
                        requires
                            rw >= 1,
                    ;
                    assert(entity.source_words + physical * rw + rw <= source@.len());
                    assert(source@.len() == source.len());
                    assert(entity.source_words as usize == entity.source_words);
                    assert(physical as usize == physical);
                    assert(self.total_records <= self.total_records * rw) by (nonlinear_arith)
                        requires
                            rw >= 1,
                    ;
                    assert(base as usize == base);
                    assert(k as usize == k);
                }
                let from: usize = (entity.source_words as usize) + (physical as usize) * rw;
                let to: usize = ((base as usize) + (k as usize)) * rw;
                let ghost before = gathered@;
                let mut w: usize = 0;
                while w < rw
                    invariant
                        rw == self.record_words,
                        gathered@.len() == before.len(),
                        w <= rw,
                        from + rw <= source@.len(),
                        to + rw <= gathered@.len(),
                        from + rw <= source.len(),
                        to + rw <= gathered.len(),
                        to == (base + k) * rw,
                        from == spec_slot(entity, self.shape, rw as int, k as int),
                        forall|x: int| #![trigger gathered@[to + x]] 0 <= x < w ==> gathered@[to + x] == source@[from + x],
                        forall|x: int|
                            0 <= x < gathered@.len() && !(to <= x < to + w) ==> gathered@[x]
                                == before[x],
                    decreases rw - w,
                {
                    gathered.set(to + w, source[from + w]);
                    w = w + 1;
                }
                proof {
                    assert forall|e: int, k2: int, x: int|
                        #![trigger self.entities@[e], gathered@[(spec_records_before(self.entities@, e) + k2) * rw + x]]
                        0 <= e < i && 0 <= k2 < self.entities@[e].count && 0 <= x < rw
                            implies gathered@[(spec_records_before(self.entities@, e) + k2) * rw + x]
                            == source@[spec_slot(self.entities@[e], self.shape, rw as int, k2) + x] by {
                        lemma_records_before_monotone(self.entities@, e + 1, i as int);
                        lemma_records_before_nonnegative(self.entities@, e);
                        assert(spec_records_before(self.entities@, e + 1) == spec_records_before(
                            self.entities@,
                            e,
                        ) + self.entities@[e].count);
                        lemma_disjoint_rows(spec_records_before(self.entities@, e) + k2, base + k, rw as int, x);
                        let idx = (spec_records_before(self.entities@, e) + k2) * rw + x;
                        assert(!(to <= idx < to + rw));
                        assert(0 <= idx) by (nonlinear_arith)
                            requires
                                spec_records_before(self.entities@, e) + k2 >= 0,
                                rw >= 0,
                                x >= 0,
                                idx == (spec_records_before(self.entities@, e) + k2) * rw + x,
                        ;
                        assert(idx < gathered@.len()) by (nonlinear_arith)
                            requires
                                spec_records_before(self.entities@, e) + k2 < base + k,
                                x < rw,
                                idx == (spec_records_before(self.entities@, e) + k2) * rw + x,
                                to == (base + k) * rw,
                                to + rw <= gathered@.len(),
                        ;
                        assert(gathered@[idx] == before[idx]);
                    }
                    assert forall|k2: int, x: int|
                        #![trigger gathered@[(base + k2) * rw + x]]
                        0 <= k2 < k + 1 && 0 <= x < rw implies gathered@[(base + k2) * rw + x]
                            == source@[spec_slot(entity, self.shape, rw as int, k2) + x] by {
                        let idx = (base + k2) * rw + x;
                        if k2 < k {
                            lemma_disjoint_rows(base + k2, base + k, rw as int, x);
                            assert(0 <= idx) by (nonlinear_arith)
                                requires
                                    base + k2 >= 0,
                                    rw >= 0,
                                    x >= 0,
                                    idx == (base + k2) * rw + x,
                            ;
                            assert(idx < gathered@.len()) by (nonlinear_arith)
                                requires
                                    base + k2 < base + k,
                                    x < rw,
                                    idx == (base + k2) * rw + x,
                                    to == (base + k) * rw,
                                    to + rw <= gathered@.len(),
                            ;
                            assert(gathered@[idx] == before[idx]);
                        } else {
                            assert(idx == to + x);
                            assert(gathered@[to + x] == source@[from + x]);
                        }
                    }
                }
                k = k + 1;
            }
            i = i + 1;
        }
        gathered
    }
}

/// Rows `a` and `b` of width `rw` are disjoint when `a != b`.
proof fn lemma_disjoint_rows(a: int, b: int, rw: int, x: int)
    requires
        rw > 0,
        0 <= x < rw,
        a != b,
        a >= 0,
        b >= 0,
    ensures
        !(b * rw <= a * rw + x < b * rw + rw),
{
    if a < b {
        assert(a * rw + x < b * rw) by (nonlinear_arith)
            requires
                a < b,
                x < rw,
                rw > 0,
        ;
    } else {
        assert(a * rw >= b * rw + rw) by (nonlinear_arith)
            requires
                a > b,
                rw > 0,
        ;
    }
}

proof fn lemma_physical_in_span(e: CompactionEntity, shape: CompactionShape, k: int)
    requires
        0 <= k < e.count,
        shape is Ring ==> e.count <= spec_max_u64(e.capacity, 1),
    ensures
        0 <= spec_physical(e, shape, k) < spec_span(e, shape),
{
    if shape is Ring {
        let m = spec_max_u64(e.capacity, 1) as int;
        assert(0 <= (e.head + k) % m < m) by (nonlinear_arith)
            requires
                m > 0,
                e.head + k >= 0,
        ;
    }
}

proof fn lemma_slot_bounds(e: CompactionEntity, shape: CompactionShape, rw: int, k: int, plane: int)
    requires
        rw > 0,
        0 <= spec_physical(e, shape, k) < spec_span(e, shape),
        spec_span(e, shape) * rw + e.source_words <= plane,
    ensures
        spec_slot(e, shape, rw, k) + rw <= plane,
{
    let p = spec_physical(e, shape, k);
    let s = spec_span(e, shape);
    assert(p * rw + rw <= s * rw) by (nonlinear_arith)
        requires
            p < s,
            rw > 0,
    ;
}

pub proof fn lemma_records_before_nonnegative(entities: Seq<CompactionEntity>, a: int)
    ensures
        spec_records_before(entities, a) >= 0,
    decreases a,
{
    if a > 0 {
        lemma_records_before_nonnegative(entities, a - 1);
    }
}

pub proof fn lemma_records_before_monotone(entities: Seq<CompactionEntity>, a: int, b: int)
    requires
        0 <= a <= b <= entities.len(),
    ensures
        spec_records_before(entities, a) <= spec_records_before(entities, b),
        spec_records_before(entities, a) >= 0,
    decreases b - a,
{
    lemma_records_before_nonnegative(entities, a);
    if a < b {
        lemma_records_before_monotone(entities, a, b - 1);
    }
}

} // verus!
