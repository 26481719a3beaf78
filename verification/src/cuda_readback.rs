//! Host side of the compacted result readback.
//!
//! Each striped arena's live regions are described by device-written `(offset, capacity, head,
//! count)` meta rows. A row's offset counts records, so the plan's word offset is the record offset
//! times the record width, saturated so that a huge offset is refused by the plan's bound check with
//! the arena named rather than wrapping. Gathered queue records are then read back in logical order.

use vstd::prelude::*;
use crate::aqm_trace::push_text;
use crate::cuda::{decode_packet_fields, spec_decode_packet_fields, CudaError, EVENT_WORDS};
use crate::device_compaction::{
    spec_plan_ok, spec_plan_refusal, spec_records_before, CompactionEntity, CompactionError, CompactionPlan,
    CompactionShape,
};
use crate::image::PacketDescriptor;
use crate::device_sizing::SUMMARY_COUNTERS;
use crate::run_summary::RunSummary;

verus! {

/// A refused compaction plan is a validation failure of the readback: a device-written meta word
/// describes a region the source plane cannot hold. The message is the refusal's own, after
/// `device readback compaction refused: `.
pub fn compaction_error(error: CompactionError) -> (failure: CudaError)
    ensures
        failure matches CudaError::Validation(message) && message@
            == "device readback compaction refused: "@ + error.0@,
{
    let mut message = String::new();
    push_text(&mut message, "device readback compaction refused: ");
    push_text(&mut message, error.0.as_str());
    CudaError::Validation(message)
}

/// The readback failure for a plan refused with `refusal`: a validation failure whose message is
/// the refusal after `device readback compaction refused: `.
pub open spec fn spec_refused_with(error: CudaError, refusal: Option<Seq<char>>) -> bool {
    match (error, refusal) {
        (CudaError::Validation(message), Some(text)) => message@
            == "device readback compaction refused: "@ + text,
        _ => false,
    }
}

/// `a * b`, or `u64::MAX` where the product does not fit.
pub open spec fn spec_saturating_mul(a: u64, b: u64) -> u64 {
    if a * b > u64::MAX {
        u64::MAX
    } else {
        (a * b) as u64
    }
}

/// The plan entity of one `(record offset, capacity, head, count)` meta row.
pub open spec fn spec_meta_entity(row: (u64, u64, u64, u64), record_words: usize) -> CompactionEntity {
    CompactionEntity {
        source_words: spec_saturating_mul(row.0, record_words as u64),
        capacity: row.1,
        head: row.2,
        count: row.3,
    }
}

/// The plan entities of the meta rows, in decode order.
pub open spec fn spec_meta_entities(rows: Seq<(u64, u64, u64, u64)>, record_words: usize) -> Seq<
    CompactionEntity,
> {
    rows.map_values(|row: (u64, u64, u64, u64)| spec_meta_entity(row, record_words))
}

/// Builds one arena's compaction plan from its per-entity meta rows, whose offsets count records.
/// A plan the rows cannot describe is a validation failure of the readback.
pub fn arena_compaction_plan(
    arena: &'static str,
    shape: CompactionShape,
    record_words: usize,
    source_plane_words: usize,
    rows: &[(u64, u64, u64, u64)],
) -> (plan: Result<CompactionPlan, CudaError>)
    ensures
        plan is Ok <==> spec_plan_ok(
            shape,
            record_words,
            spec_meta_entities(rows@, record_words),
            source_plane_words,
        ),
        plan matches Ok(plan) ==> {
            &&& plan.wf()
            &&& plan.arena_name() == arena
            &&& plan.shape() == shape
            &&& plan.record_words() == record_words
            &&& plan.entities() == spec_meta_entities(rows@, record_words)
        },
        plan matches Err(error) ==> spec_refused_with(
            error,
            spec_plan_refusal(
                arena@,
                shape,
                record_words,
                spec_meta_entities(rows@, record_words),
                source_plane_words,
            ),
        ),
{
    let mut entities: Vec<CompactionEntity> = Vec::new();
    let mut i: usize = 0;
    while i < rows.len()
        invariant
            i <= rows@.len(),
            entities@ == spec_meta_entities(rows@.take(i as int), record_words),
        decreases rows@.len() - i,
    {
        let (offset, capacity, head, count) = rows[i];
        let source_words = match offset.checked_mul(record_words as u64) {
            Some(words) => words,
            None => u64::MAX,
        };
        entities.push(CompactionEntity { source_words, capacity, head, count });
        assert(rows@.take(i + 1) =~= rows@.take(i as int).push(rows@[i as int]));
        assert(entities@ =~= spec_meta_entities(rows@.take(i + 1), record_words));
        i = i + 1;
    }
    assert(rows@.take(rows@.len() as int) =~= rows@);
    match CompactionPlan::new(arena, shape, record_words, entities, source_plane_words) {
        Ok(plan) => Ok(plan),
        Err(error) => Err(compaction_error(error)),
    }
}

/// The seven packet words of event record `slot` in a record buffer.
pub open spec fn spec_packet_words(storage: Seq<u64>, slot: int) -> Seq<u64> {
    storage.subrange(slot * EVENT_WORDS + 7, slot * EVENT_WORDS + EVENT_WORDS)
}

/// The words of event record `slot` in a record buffer.
pub fn read_record(storage: &[u64], slot: usize) -> (record: &[u64])
    requires
        slot * EVENT_WORDS + EVENT_WORDS <= storage@.len(),
    ensures
        record@ == storage@.subrange(slot * EVENT_WORDS, slot * EVENT_WORDS + EVENT_WORDS),
{
    assert(slot * EVENT_WORDS + EVENT_WORDS <= storage.len());
    let offset = slot * EVENT_WORDS;
    vstd::slice::slice_subrange(storage, offset, offset + EVENT_WORDS)
}

/// Record `slot` lies inside the buffer and its packet words decode.
pub open spec fn spec_packet_record_ok(storage: Seq<u64>, slot: int) -> bool {
    &&& 0 <= slot
    &&& slot * EVENT_WORDS + EVENT_WORDS <= storage.len()
    &&& spec_decode_packet_fields(spec_packet_words(storage, slot)) is Ok
}

/// The packet carried by event record `slot`.
pub open spec fn spec_read_packet(storage: Seq<u64>, slot: int) -> PacketDescriptor {
    spec_decode_packet_fields(spec_packet_words(storage, slot))->Ok_0
}

/// Decodes the packet of event record `slot`. The device writes only validated kind codes, so the
/// record must decode.
pub fn read_packet(storage: &[u64], slot: usize) -> (packet: PacketDescriptor)
    requires
        spec_packet_record_ok(storage@, slot as int),
    ensures
        packet == spec_read_packet(storage@, slot as int),
{
    let record = read_record(storage, slot);
    let words = vstd::slice::slice_subrange(record, 7, EVENT_WORDS);
    assert(words@ =~= spec_packet_words(storage@, slot as int));
    decode_packet_fields(words).unwrap()
}

/// Logical record `k` of a queue gathered from record `first` on decodes.
pub open spec fn spec_queue_record_ok(records: Seq<u64>, first: int, k: int) -> bool {
    spec_packet_record_ok(records, first + k)
}

/// Decodes entity `lp`'s queue out of the gathered queue records. The gather has resolved the ring
/// rotation, so logical position `i` is gathered record `destination(lp) + i`.
pub fn read_queue(plan: &CompactionPlan, lp: usize, records: &[u64]) -> (queue: Vec<PacketDescriptor>)
    requires
        plan.wf(),
        lp < plan.entities().len(),
        forall|k: int|
            0 <= k < plan.entities()[lp as int].count ==> #[trigger] spec_queue_record_ok(
                records@,
                spec_records_before(plan.entities(), lp as int),
                k,
            ),
    ensures
        queue@.len() == plan.entities()[lp as int].count,
        forall|k: int|
            0 <= k < queue@.len() ==> #[trigger] queue@[k] == spec_read_packet(
                records@,
                spec_records_before(plan.entities(), lp as int) + k,
            ),
{
    let base = plan.destination(lp);
    let count = plan.count(lp);
    let mut queue: Vec<PacketDescriptor> = Vec::new();
    let mut index: usize = 0;
    while index < count
        invariant
            plan.wf(),
            lp < plan.entities().len(),
            base == spec_records_before(plan.entities(), lp as int),
            count == plan.entities()[lp as int].count,
            index <= count,
            queue@.len() == index,
            forall|k: int|
                0 <= k < plan.entities()[lp as int].count ==> #[trigger] spec_queue_record_ok(
                    records@,
                    base as int,
                    k,
                ),
            forall|k: int|
                0 <= k < index ==> #[trigger] queue@[k] == spec_read_packet(records@, base + k),
        decreases count - index,
    {
        assert(spec_queue_record_ok(records@, base as int, index as int));
        assert((base + index) * EVENT_WORDS + EVENT_WORDS <= records.len());
        let packet = read_packet(records, base + index);
        queue.push(packet);
        index = index + 1;
    }
    queue
}


// ---------------------------------------------------------------------------------------------
// Run summary plane.
// ---------------------------------------------------------------------------------------------

/// Counter `counter` of LP `node`: a 128-bit value stored low word first, in rows of
/// `SUMMARY_COUNTERS` counters per LP.
pub open spec fn spec_summary_counter(words: Seq<u64>, node: int, counter: int) -> int {
    let offset = node * (SUMMARY_COUNTERS * 2) + counter * 2;
    words[offset] + words[offset + 1] * 0x1_0000_0000_0000_0000
}

/// Counter `counter` summed over the first `upto` LPs.
pub open spec fn spec_summary_total(words: Seq<u64>, counter: int, upto: int) -> int
    decreases upto,
{
    if upto <= 0 {
        0
    } else {
        spec_summary_total(words, counter, upto - 1) + spec_summary_counter(words, upto - 1, counter)
    }
}

/// Every run-wide counter total fits `u128`.
pub open spec fn spec_summary_fits(words: Seq<u64>, node_count: int) -> bool {
    forall|counter: int|
        0 <= counter < SUMMARY_COUNTERS ==> #[trigger] spec_summary_total(words, counter, node_count)
            <= u128::MAX
}

/// The run summary of a summary plane: each counter summed over the LPs' rows.
pub open spec fn spec_run_summary(words: Seq<u64>, node_count: int) -> RunSummary {
    RunSummary {
        sourced_packets: spec_summary_total(words, 0, node_count) as u128,
        sourced_bytes: spec_summary_total(words, 1, node_count) as u128,
        departed_packets: spec_summary_total(words, 2, node_count) as u128,
        departed_bytes: spec_summary_total(words, 3, node_count) as u128,
        admitted_packets: spec_summary_total(words, 4, node_count) as u128,
        admitted_bytes: spec_summary_total(words, 5, node_count) as u128,
        received_packets: spec_summary_total(words, 6, node_count) as u128,
        received_bytes: spec_summary_total(words, 7, node_count) as u128,
        dropped_packets: spec_summary_total(words, 8, node_count) as u128,
        dropped_bytes: spec_summary_total(words, 9, node_count) as u128,
        feedback_packets: spec_summary_total(words, 10, node_count) as u128,
        feedback_bytes: spec_summary_total(words, 11, node_count) as u128,
    }
}

proof fn lemma_summary_total_grows(words: Seq<u64>, counter: int, upto: int, total: int)
    requires
        0 <= upto <= total,
    ensures
        0 <= spec_summary_total(words, counter, upto) <= spec_summary_total(words, counter, total),
    decreases total,
{
    if total > upto {
        lemma_summary_total_grows(words, counter, upto, total - 1);
    } else if upto > 0 {
        lemma_summary_total_grows(words, counter, upto - 1, upto - 1);
    }
}

fn summary_counter(words: &[u64], node_count: usize, counter: usize) -> (total: u128)
    requires
        counter < SUMMARY_COUNTERS,
        node_count * (SUMMARY_COUNTERS * 2) <= words@.len(),
        spec_summary_total(words@, counter as int, node_count as int) <= u128::MAX,
    ensures
        total == spec_summary_total(words@, counter as int, node_count as int),
{
    let length = words.len();
    let mut total: u128 = 0;
    let mut node: usize = 0;
    while node < node_count
        invariant
            node <= node_count,
            length == words@.len(),
            counter < SUMMARY_COUNTERS,
            node_count * (SUMMARY_COUNTERS * 2) <= words@.len(),
            spec_summary_total(words@, counter as int, node_count as int) <= u128::MAX,
            total == spec_summary_total(words@, counter as int, node as int),
        decreases node_count - node,
    {
        assert(node * (SUMMARY_COUNTERS * 2) + counter * 2 + 1 < words@.len()) by (nonlinear_arith)
            requires
                node < node_count,
                counter < SUMMARY_COUNTERS,
                node_count * (SUMMARY_COUNTERS * 2) <= words@.len(),
        ;
        let offset = node * (SUMMARY_COUNTERS * 2) + counter * 2;
        let low = words[offset];
        let high = words[offset + 1];
        let value = (low as u128) | ((high as u128) << 64u32);
        assert(value == low + high * 0x1_0000_0000_0000_0000) by (bit_vector)
            requires
                value == (low as u128) | ((high as u128) << 64u32),
        ;
        proof {
            lemma_summary_total_grows(words@, counter as int, node + 1, node_count as int);
        }
        total = total + value;
        node += 1;
    }
    total
}

/// Sums each of the `SUMMARY_COUNTERS` 128-bit counters over the summary rows of
/// `node_count` LPs.
pub fn decode_summary_rows(words: &[u64], node_count: usize) -> (summary: RunSummary)
    requires
        node_count * (SUMMARY_COUNTERS * 2) <= words@.len(),
        spec_summary_fits(words@, node_count as int),
    ensures
        summary == spec_run_summary(words@, node_count as int),
{
    assert(spec_summary_total(words@, 0, node_count as int) <= u128::MAX);
    assert(spec_summary_total(words@, 1, node_count as int) <= u128::MAX);
    assert(spec_summary_total(words@, 2, node_count as int) <= u128::MAX);
    assert(spec_summary_total(words@, 3, node_count as int) <= u128::MAX);
    assert(spec_summary_total(words@, 4, node_count as int) <= u128::MAX);
    assert(spec_summary_total(words@, 5, node_count as int) <= u128::MAX);
    assert(spec_summary_total(words@, 6, node_count as int) <= u128::MAX);
    assert(spec_summary_total(words@, 7, node_count as int) <= u128::MAX);
    assert(spec_summary_total(words@, 8, node_count as int) <= u128::MAX);
    assert(spec_summary_total(words@, 9, node_count as int) <= u128::MAX);
    assert(spec_summary_total(words@, 10, node_count as int) <= u128::MAX);
    assert(spec_summary_total(words@, 11, node_count as int) <= u128::MAX);
    RunSummary {
        sourced_packets: summary_counter(words, node_count, 0),
        sourced_bytes: summary_counter(words, node_count, 1),
        departed_packets: summary_counter(words, node_count, 2),
        departed_bytes: summary_counter(words, node_count, 3),
        admitted_packets: summary_counter(words, node_count, 4),
        admitted_bytes: summary_counter(words, node_count, 5),
        received_packets: summary_counter(words, node_count, 6),
        received_bytes: summary_counter(words, node_count, 7),
        dropped_packets: summary_counter(words, node_count, 8),
        dropped_bytes: summary_counter(words, node_count, 9),
        feedback_packets: summary_counter(words, node_count, 10),
        feedback_bytes: summary_counter(words, node_count, 11),
    }
}

} // verus!
