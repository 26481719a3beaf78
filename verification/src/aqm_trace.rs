//! Stable CSV projection for exact RED/ECN enqueue replay.
//!
//! Each full-observation AQM transition becomes one CSV row in canonical event-key order; two
//! transitions with one key are refused, since the replay could not order them.

use vstd::prelude::*;
use crate::event::{push_key, spec_key_text, EventKey, NodeId, PayloadId};
use crate::model::{DropMarkPolicy, QueueDepthUnit};
use crate::sort::{merge_sort, spec_merge_sort, SortKey};

verus! {

pub const HEADER: &'static str = "time_ns,event_phase,event_origin_node,event_origin_sequence,node_id,payload_id,queued_packets_before,queued_bytes_before,packet_size_bytes,ecn_before,ecn_after,policy,depth_unit,capacity,threshold,min_threshold,max_threshold,max_probability_numerator,max_probability_denominator,mark_ecn,before_average_scaled,before_counter,after_average_scaled,after_counter,action\n";

/// What an AQM enqueue decision did with the packet.
#[derive(Clone, Copy, Debug, PartialEq, Eq, Structural)]
pub enum AqmTransitionAction {
    Enqueue,
    Mark,
    Drop,
}

/// One full-observation AQM enqueue transition.
#[derive(Clone, Copy, Debug, PartialEq, Eq, Structural)]
pub struct AqmTransitionRecord {
    pub key: EventKey,
    pub node: NodeId,
    pub payload: PayloadId,
    pub queued_packets_before: u64,
    pub queued_bytes_before: u64,
    pub packet_size_bytes: u64,
    pub ecn_before: bool,
    pub ecn_after: bool,
    pub before: DropMarkPolicy,
    pub after: DropMarkPolicy,
    pub action: AqmTransitionAction,
}

/// Two transitions carry the same canonical key.
#[derive(Clone, Copy, Debug, PartialEq, Eq, Structural)]
pub struct AqmTraceError {
    pub duplicate_key: EventKey,
}

/// The diagnostic message of a repeated transition key.
pub open spec fn spec_trace_error_text(error: AqmTraceError) -> Seq<char> {
    "duplicate canonical AQM transition key "@ + spec_key_text(error.duplicate_key)
}

impl AqmTraceError {
    /// The diagnostic message of the refusal.
    pub fn message(&self) -> (text: String)
        ensures
            text@ == spec_trace_error_text(*self),
    {
        let mut text = String::new();
        push_text(&mut text, "duplicate canonical AQM transition key ");
        push_key(&mut text, self.duplicate_key);
        assert(text@ =~= spec_trace_error_text(*self));
        text
    }
}

/// Canonical event-key order.
pub open spec fn spec_key_le(a: EventKey, b: EventKey) -> bool {
    ||| a.time_ns < b.time_ns
    ||| a.time_ns == b.time_ns && a.phase < b.phase
    ||| a.time_ns == b.time_ns && a.phase == b.phase && a.origin_node.0 < b.origin_node.0
    ||| a.time_ns == b.time_ns && a.phase == b.phase && a.origin_node.0 == b.origin_node.0
        && a.origin_seq <= b.origin_seq
}

impl SortKey for AqmTransitionRecord {
    open spec fn spec_le(self, other: Self) -> bool {
        spec_key_le(self.key, other.key)
    }

    fn le_key(&self, other: &Self) -> (le: bool) {
        let a = self.key;
        let b = other.key;
        if a.time_ns != b.time_ns {
            a.time_ns < b.time_ns
        } else if a.phase != b.phase {
            a.phase < b.phase
        } else if a.origin_node.0 != b.origin_node.0 {
            a.origin_node.0 < b.origin_node.0
        } else {
            a.origin_seq <= b.origin_seq
        }
    }

    proof fn lemma_total(a: Self, b: Self) {
    }

    proof fn lemma_transitive(a: Self, b: Self, c: Self) {
    }
}

/// Both policies are the same closed variant, and a threshold policy is unchanged.
pub open spec fn spec_policy_pair_ok(record: AqmTransitionRecord) -> bool {
    match (record.before, record.after) {
        (DropMarkPolicy::EcnThreshold(before), DropMarkPolicy::EcnThreshold(after)) => before == after,
        (DropMarkPolicy::Red(_), DropMarkPolicy::Red(_)) => true,
        _ => false,
    }
}

pub open spec fn spec_digit(d: int) -> char {
    (48 + d) as char
}

/// Decimal digits of `n`, most significant first.
pub open spec fn spec_decimal(n: nat) -> Seq<char>
    decreases n,
{
    if n < 10 {
        seq![spec_digit(n as int)]
    } else {
        spec_decimal(n / 10).push(spec_digit((n % 10) as int))
    }
}

pub open spec fn spec_optional(value: Option<u64>) -> Seq<char> {
    match value {
        Some(n) => spec_decimal(n as nat),
        None => Seq::empty(),
    }
}

pub open spec fn spec_bit(value: bool) -> Seq<char> {
    if value {
        seq!['1']
    } else {
        seq!['0']
    }
}

pub open spec fn spec_unit(unit: QueueDepthUnit) -> Seq<char> {
    match unit {
        QueueDepthUnit::Packets => "packets"@,
        QueueDepthUnit::Bytes => "bytes"@,
    }
}

pub open spec fn spec_action(action: AqmTransitionAction) -> Seq<char> {
    match action {
        AqmTransitionAction::Enqueue => "enqueue"@,
        AqmTransitionAction::Mark => "mark"@,
        AqmTransitionAction::Drop => "drop"@,
    }
}

/// `fields` joined by commas.
pub open spec fn spec_join(fields: Seq<Seq<char>>) -> Seq<char>
    decreases fields.len(),
{
    if fields.len() == 0 {
        Seq::empty()
    } else if fields.len() == 1 {
        fields[0]
    } else {
        spec_join(fields.drop_last()).push(',') + fields.last()
    }
}

/// The policy-dependent columns of a row: policy, unit, capacity, threshold, RED thresholds and
/// probability, RED marking and the RED state before and after; empty where the policy has none.
pub open spec fn spec_policy_fields(record: AqmTransitionRecord) -> Seq<Seq<char>> {
    match record.before {
        DropMarkPolicy::EcnThreshold(before) => seq![
            "threshold"@,
            spec_unit(before.unit),
            spec_decimal(before.capacity as nat),
            spec_decimal(before.threshold as nat),
            Seq::empty(),
            Seq::empty(),
            Seq::empty(),
            Seq::empty(),
            spec_bit(false),
            Seq::empty(),
            Seq::empty(),
            Seq::empty(),
            Seq::empty(),
        ],
        DropMarkPolicy::Red(before) => {
            let after = match record.after {
                DropMarkPolicy::Red(after) => after,
                _ => before,
            };
            seq![
                "red"@,
                spec_unit(before.unit),
                spec_decimal(before.capacity as nat),
                Seq::empty(),
                spec_decimal(before.min_threshold as nat),
                spec_decimal(before.max_threshold as nat),
                spec_decimal(before.max_probability_numerator as nat),
                spec_decimal(before.max_probability_denominator as nat),
                spec_bit(before.mark_ecn),
                spec_decimal(before.average_scaled as nat),
                spec_decimal(before.counter as nat),
                spec_decimal(after.average_scaled as nat),
                spec_decimal(after.counter as nat),
            ]
        },
        DropMarkPolicy::TailDrop => Seq::empty(),
    }
}

/// The key, identity, queue and ECN columns that open every row.
pub open spec fn spec_prefix_fields(record: AqmTransitionRecord) -> Seq<Seq<char>> {
    seq![
        spec_decimal(record.key.time_ns as nat),
        spec_decimal(record.key.phase as nat),
        spec_decimal(record.key.origin_node.0 as nat),
        spec_decimal(record.key.origin_seq as nat),
        spec_decimal(record.node.0 as nat),
        spec_decimal(record.payload.0 as nat),
        spec_decimal(record.queued_packets_before as nat),
        spec_decimal(record.queued_bytes_before as nat),
        spec_decimal(record.packet_size_bytes as nat),
        spec_bit(record.ecn_before),
        spec_bit(record.ecn_after),
    ]
}

/// Every column of one record's row, in header order.
pub open spec fn spec_row_fields(record: AqmTransitionRecord) -> Seq<Seq<char>> {
    spec_prefix_fields(record) + spec_policy_fields(record) + seq![spec_action(record.action)]
}

/// One CSV row, newline-terminated.
pub open spec fn spec_row(record: AqmTransitionRecord) -> Seq<char> {
    spec_join(spec_row_fields(record)).push('\n')
}

/// The rows of the records, in order.
pub open spec fn spec_rows(records: Seq<AqmTransitionRecord>) -> Seq<char>
    decreases records.len(),
{
    if records.len() == 0 {
        Seq::empty()
    } else {
        spec_rows(records.drop_last()) + spec_row(records.last())
    }
}

/// First position at or after `i` where a record shares its key with the next one, or the last
/// position.
pub open spec fn spec_first_duplicate(records: Seq<AqmTransitionRecord>, i: int) -> int
    decreases records.len() - i,
{
    if i + 1 >= records.len() {
        if records.len() > 0 {
            records.len() - 1
        } else {
            0
        }
    } else if records[i].key == records[i + 1].key {
        i
    } else {
        spec_first_duplicate(records, i + 1)
    }
}

/// Two sorted records share a key somewhere.
pub open spec fn spec_has_duplicate(records: Seq<AqmTransitionRecord>) -> bool {
    exists|i: int| 0 <= i && i + 1 < records.len() && #[trigger] records[i].key == records[i + 1].key
}

/// Appends a `&str` to a `String`.
#[verifier::external_body]
pub(crate) fn push_text(out: &mut String, text: &str)
    ensures
        final(out)@ == old(out)@ + text@,
{
    out.push_str(text);
}

/// Appends a `char` to a `String`.
#[verifier::external_body]
pub(crate) fn push_char(out: &mut String, c: char)
    ensures
        final(out)@ == old(out)@.push(c),
{
    out.push(c);
}

fn push_digit(out: &mut String, digit: u64)
    requires
        digit < 10,
    ensures
        final(out)@ == old(out)@.push(spec_digit(digit as int)),
{
    let c = match digit {
        0 => '0',
        1 => '1',
        2 => '2',
        3 => '3',
        4 => '4',
        5 => '5',
        6 => '6',
        7 => '7',
        8 => '8',
        _ => '9',
    };
    push_char(out, c);
}

pub(crate) fn push_decimal(out: &mut String, value: u64)
    ensures
        final(out)@ == old(out)@ + spec_decimal(value as nat),
    decreases value,
{
    if value >= 10 {
        push_decimal(out, value / 10);
        push_digit(out, value % 10);
        proof {
            assert(spec_decimal(value as nat) == spec_decimal((value / 10) as nat).push(
                spec_digit((value % 10) as int),
            ));
        }
    } else {
        push_digit(out, value);
    }
}

/// Appends the decimal digits of a 128-bit value.
pub(crate) fn push_wide_decimal(out: &mut String, value: u128)
    ensures
        final(out)@ == old(out)@ + spec_decimal(value as nat),
    decreases value,
{
    if value >= 10 {
        push_wide_decimal(out, value / 10);
        push_digit(out, (value % 10) as u64);
        proof {
            assert(spec_decimal(value as nat) == spec_decimal((value / 10) as nat).push(
                spec_digit((value % 10) as int),
            ));
        }
    } else {
        push_digit(out, value as u64);
    }
}

fn decimal_string(value: u64) -> (text: String)
    ensures
        text@ == spec_decimal(value as nat),
{
    let mut text = String::new();
    push_decimal(&mut text, value);
    assert(text@ =~= spec_decimal(value as nat));
    text
}

fn bit(value: bool) -> (text: String)
    ensures
        text@ == spec_bit(value),
{
    let mut text = String::new();
    push_char(&mut text, if value { '1' } else { '0' });
    assert(text@ =~= spec_bit(value));
    text
}

fn optional(value: Option<u64>) -> (text: String)
    ensures
        text@ == spec_optional(value),
{
    match value {
        Some(n) => decimal_string(n),
        None => String::new(),
    }
}

fn unit(depth_unit: QueueDepthUnit) -> (text: String)
    ensures
        text@ == spec_unit(depth_unit),
{
    match depth_unit {
        QueueDepthUnit::Packets => "packets".to_owned(),
        QueueDepthUnit::Bytes => "bytes".to_owned(),
    }
}

fn action(transition: AqmTransitionAction) -> (text: String)
    ensures
        text@ == spec_action(transition),
{
    match transition {
        AqmTransitionAction::Enqueue => "enqueue".to_owned(),
        AqmTransitionAction::Mark => "mark".to_owned(),
        AqmTransitionAction::Drop => "drop".to_owned(),
    }
}

pub open spec fn spec_views(fields: Seq<String>) -> Seq<Seq<char>> {
    fields.map_values(|field: String| field@)
}

fn push_field(fields: &mut Vec<String>, field: String)
    ensures
        spec_views(final(fields)@) == spec_views(old(fields)@).push(field@),
{
    fields.push(field);
    assert(spec_views(fields@) =~= spec_views(old(fields)@).push(field@));
}

fn append_fields(fields: &mut Vec<String>, more: Vec<String>)
    ensures
        spec_views(final(fields)@) == spec_views(old(fields)@) + spec_views(more@),
{
    let mut more = more;
    let ghost added = spec_views(more@);
    let mut taken: Vec<String> = Vec::new();
    while more.len() > 0
        invariant
            spec_views(taken@).len() + spec_views(more@).len() == added.len(),
            spec_views(fields@) == spec_views(old(fields)@) + added.take(spec_views(taken@).len() as int),
            spec_views(more@) == added.skip(spec_views(taken@).len() as int),
        decreases more@.len(),
    {
        let ghost old_more = more@;
        let ghost n = spec_views(taken@).len() as int;
        let field = more.remove(0);
        assert(field == old_more[0]);
        assert(spec_views(old_more)[0] == old_more[0]@);
        assert(added.skip(n)[0] == added[n]);
        assert(field@ == added[n]);
        assert(more@ == old_more.remove(0));
        assert(spec_views(more@) =~= spec_views(old_more).drop_first());
        push_field(fields, field);
        taken.push(String::new());
        assert(spec_views(taken@).len() == n + 1);
        assert(added.take(n + 1) =~= added.take(n).push(added[n]));
        assert(spec_views(more@) =~= added.skip(n + 1));
        assert(spec_views(fields@) =~= spec_views(old(fields)@) + added.take(n + 1));
    }
    assert(added.take(added.len() as int) =~= added);
}

fn prefix_fields(record: AqmTransitionRecord) -> (fields: Vec<String>)
    ensures
        spec_views(fields@) == spec_prefix_fields(record),
{
    let mut fields: Vec<String> = Vec::new();
    push_field(&mut fields, decimal_string(record.key.time_ns));
    push_field(&mut fields, decimal_string(record.key.phase as u64));
    push_field(&mut fields, decimal_string(record.key.origin_node.0));
    push_field(&mut fields, decimal_string(record.key.origin_seq));
    push_field(&mut fields, decimal_string(record.node.0));
    push_field(&mut fields, decimal_string(record.payload.0));
    push_field(&mut fields, decimal_string(record.queued_packets_before));
    push_field(&mut fields, decimal_string(record.queued_bytes_before));
    push_field(&mut fields, decimal_string(record.packet_size_bytes));
    push_field(&mut fields, bit(record.ecn_before));
    push_field(&mut fields, bit(record.ecn_after));
    assert(spec_views(fields@) =~= spec_prefix_fields(record));
    fields
}

fn threshold_fields(record: AqmTransitionRecord, before: crate::model::EcnThresholdPolicy) -> (fields: Vec<String>)
    requires
        record.before == DropMarkPolicy::EcnThreshold(before),
    ensures
        spec_views(fields@) == spec_policy_fields(record),
{
    let mut fields: Vec<String> = Vec::new();
    push_field(&mut fields, "threshold".to_owned());
    push_field(&mut fields, unit(before.unit));
    push_field(&mut fields, decimal_string(before.capacity));
    push_field(&mut fields, optional(Some(before.threshold)));
    push_field(&mut fields, optional(None));
    push_field(&mut fields, optional(None));
    push_field(&mut fields, optional(None));
    push_field(&mut fields, optional(None));
    push_field(&mut fields, bit(false));
    push_field(&mut fields, optional(None));
    push_field(&mut fields, optional(None));
    push_field(&mut fields, optional(None));
    push_field(&mut fields, optional(None));
    assert(spec_views(fields@) =~= spec_policy_fields(record));
    fields
}

fn red_fields(
    record: AqmTransitionRecord,
    before: crate::model::RedPolicyState,
    after: crate::model::RedPolicyState,
) -> (fields: Vec<String>)
    requires
        record.before == DropMarkPolicy::Red(before),
        record.after == DropMarkPolicy::Red(after),
    ensures
        spec_views(fields@) == spec_policy_fields(record),
{
    let mut fields: Vec<String> = Vec::new();
    push_field(&mut fields, "red".to_owned());
    push_field(&mut fields, unit(before.unit));
    push_field(&mut fields, decimal_string(before.capacity));
    push_field(&mut fields, optional(None));
    push_field(&mut fields, optional(Some(before.min_threshold)));
    push_field(&mut fields, optional(Some(before.max_threshold)));
    push_field(&mut fields, optional(Some(before.max_probability_numerator)));
    push_field(&mut fields, optional(Some(before.max_probability_denominator)));
    push_field(&mut fields, bit(before.mark_ecn));
    push_field(&mut fields, optional(Some(before.average_scaled)));
    push_field(&mut fields, optional(Some(before.counter)));
    push_field(&mut fields, optional(Some(after.average_scaled)));
    push_field(&mut fields, optional(Some(after.counter)));
    assert(spec_views(fields@) =~= spec_policy_fields(record));
    fields
}

/// The columns of one record's row, in header order.
fn row_fields(record: AqmTransitionRecord) -> (fields: Vec<String>)
    requires
        spec_policy_pair_ok(record),
    ensures
        spec_views(fields@) == spec_row_fields(record),
{
    let mut fields = prefix_fields(record);
    let policy = match (record.before, record.after) {
        (DropMarkPolicy::EcnThreshold(before), _) => threshold_fields(record, before),
        (DropMarkPolicy::Red(before), DropMarkPolicy::Red(after)) => red_fields(record, before, after),
        _ => Vec::new(),
    };
    append_fields(&mut fields, policy);
    push_field(&mut fields, action(record.action));
    fields
}

/// Appends one newline-terminated row.
fn push_row(out: &mut String, record: AqmTransitionRecord)
    requires
        spec_policy_pair_ok(record),
    ensures
        final(out)@ == old(out)@ + spec_row(record),
{
    let fields = row_fields(record);
    let ghost views = spec_views(fields@);
    let mut k: usize = 0;
    while k < fields.len()
        invariant
            k <= fields@.len(),
            views == spec_views(fields@),
            views.len() == fields@.len(),
            out@ == old(out)@ + spec_join(views.take(k as int)),
        decreases fields@.len() - k,
    {
        let ghost before = out@;
        if k > 0 {
            push_char(out, ',');
        }
        push_text(out, fields[k].as_str());
        proof {
            let next = views.take(k + 1);
            assert(next.drop_last() =~= views.take(k as int));
            assert(next.last() == fields@[k as int]@);
            if k == 0 {
                assert(spec_join(views.take(k as int)) =~= Seq::<char>::empty());
                assert(out@ =~= old(out)@ + spec_join(next));
            } else {
                assert(out@ =~= old(out)@ + spec_join(next));
            }
        }
        k = k + 1;
    }
    assert(views.take(k as int) =~= views);
    push_char(out, '\n');
    assert(out@ =~= old(out)@ + spec_row(record));
}

/// The CSV of a trace, or the refusal of its first repeated key, both in canonical key order.
pub open spec fn spec_csv(records: Seq<AqmTransitionRecord>) -> Result<Seq<char>, AqmTraceError> {
    let sorted = spec_merge_sort(records);
    if spec_has_duplicate(sorted) {
        Err(AqmTraceError { duplicate_key: sorted[spec_first_duplicate(sorted, 0)].key })
    } else {
        Ok(HEADER@ + spec_rows(sorted))
    }
}

/// Serializes full-observation AQM transitions in canonical event-key order, refusing the
/// smallest key two transitions share.
pub fn aqm_transitions_csv(records: &[AqmTransitionRecord]) -> (csv: Result<String, AqmTraceError>)
    requires
        forall|i: int| 0 <= i < records@.len() ==> spec_policy_pair_ok(#[trigger] records@[i]),
    ensures
        (match spec_csv(records@) {
            Ok(text) => csv matches Ok(written) && written@ == text,
            Err(error) => csv == Err::<String, AqmTraceError>(error),
        }),
{
    let copied = vstd::slice::slice_to_vec(records);
    let sorted = merge_sort(&copied);
    proof {
        crate::sort::law_merge_sort_is_stable_sort(records@);
        assert forall|i: int| 0 <= i < sorted@.len() implies spec_policy_pair_ok(#[trigger] sorted@[i]) by {
            crate::sort::lemma_merge_sort_member(records@, i);
        }
    }
    let mut i: usize = 0;
    while i + 1 < sorted.len()
        invariant
            sorted@ == spec_merge_sort(records@),
            i + 1 <= sorted@.len() || sorted@.len() == 0,
            i <= sorted@.len(),
            spec_first_duplicate(sorted@, 0) == spec_first_duplicate(sorted@, i as int),
            forall|j: int| 0 <= j < i && j + 1 < sorted@.len() ==> #[trigger] sorted@[j].key != sorted@[j + 1].key,
        decreases sorted@.len() - i,
    {
        if sorted[i].key == sorted[i + 1].key {
            return Err(AqmTraceError { duplicate_key: sorted[i].key });
        }
        i = i + 1;
    }
    proof {
        if spec_has_duplicate(sorted@) {
            let j = choose|j: int| 0 <= j && j + 1 < sorted@.len() && #[trigger] sorted@[j].key == sorted@[j + 1].key;
            assert(false);
        }
    }
    let mut csv = String::new();
    push_text(&mut csv, HEADER);
    let mut k: usize = 0;
    while k < sorted.len()
        invariant
            k <= sorted@.len(),
            forall|j: int| 0 <= j < sorted@.len() ==> spec_policy_pair_ok(#[trigger] sorted@[j]),
            csv@ == HEADER@ + spec_rows(sorted@.take(k as int)),
        decreases sorted@.len() - k,
    {
        let ghost before = csv@;
        push_row(&mut csv, sorted[k]);
        proof {
            let next = sorted@.take(k + 1);
            assert(next.drop_last() =~= sorted@.take(k as int));
            assert(csv@ =~= HEADER@ + spec_rows(next));
        }
        k = k + 1;
    }
    assert(sorted@.take(k as int) =~= sorted@);
    Ok(csv)
}

// ---------------------------------------------------------------------------------------------
// The trace does not depend on the order of the records.
// ---------------------------------------------------------------------------------------------

proof fn lemma_key_antisymmetric(a: EventKey, b: EventKey)
    requires
        spec_key_le(a, b),
        spec_key_le(b, a),
    ensures
        a == b,
{
    assert(a.origin_node.0 == b.origin_node.0);
    assert(a.origin_node == b.origin_node);
}

/// Two records of `s` carry key `k`.
pub open spec fn spec_key_repeats(s: Seq<AqmTransitionRecord>, k: EventKey) -> bool {
    exists|i: int, j: int| 0 <= i < j < s.len() && (#[trigger] s[i]).key == k && (#[trigger] s[j]).key == k
}

proof fn lemma_ordered_run(t: Seq<AqmTransitionRecord>, i: int, j: int, m: int)
    requires
        crate::sort::spec_ordered(t),
        0 <= i <= m <= j < t.len(),
        t[i].key == t[j].key,
    ensures
        t[m].key == t[i].key,
{
    if i < m {
        assert(spec_key_le(t[i].key, t[m].key));
    }
    if m < j {
        assert(spec_key_le(t[m].key, t[j].key));
    }
    if i < m && m < j {
        lemma_key_antisymmetric(t[i].key, t[m].key);
    } else if i == m {
    } else {
        assert(m == j);
    }
}

/// An ordered sequence has adjacent equal keys exactly when some key repeats.
proof fn lemma_duplicate_is_repeat(t: Seq<AqmTransitionRecord>)
    requires
        crate::sort::spec_ordered(t),
    ensures
        spec_has_duplicate(t) <==> exists|k: EventKey| #[trigger] spec_key_repeats(t, k),
{
    if spec_has_duplicate(t) {
        let i = choose|i: int| 0 <= i && i + 1 < t.len() && #[trigger] t[i].key == t[i + 1].key;
        assert(spec_key_repeats(t, t[i].key)) by {
            assert(t[i].key == t[i].key && t[i + 1].key == t[i].key);
        }
    }
    if exists|k: EventKey| #[trigger] spec_key_repeats(t, k) {
        let k = choose|k: EventKey| #[trigger] spec_key_repeats(t, k);
        let (i, j) = choose|i: int, j: int| 0 <= i < j < t.len() && (#[trigger] t[i]).key == k && (#[trigger] t[j]).key == k;
        lemma_ordered_run(t, i, j, i + 1);
        assert(t[i].key == t[i + 1].key);
    }
}

/// A key repeats in a sequence exactly when it repeats in any sequence with the same records.
proof fn lemma_repeat_multiset(a: Seq<AqmTransitionRecord>, b: Seq<AqmTransitionRecord>, k: EventKey)
    requires
        a.to_multiset() == b.to_multiset(),
        spec_key_repeats(a, k),
    ensures
        spec_key_repeats(b, k),
{
    broadcast use vstd::seq_lib::group_to_multiset_ensures;
    broadcast use vstd::multiset::group_multiset_axioms;
    let (i, j) = choose|i: int, j: int| 0 <= i < j < a.len() && (#[trigger] a[i]).key == k && (#[trigger] a[j]).key == k;
    let x = a[i];
    let y = a[j];
    assert(a.contains(x) && a.contains(y));
    assert(a.to_multiset().count(x) > 0 && a.to_multiset().count(y) > 0);
    assert(b.contains(x));
    let p = choose|p: int| 0 <= p < b.len() && b[p] == x;
    if x != y {
        assert(b.contains(y));
        let q = choose|q: int| 0 <= q < b.len() && b[q] == y;
        if p < q {
            assert(b[p].key == k && b[q].key == k);
        } else {
            assert(b[q].key == k && b[p].key == k);
        }
    } else {
        let rest = a.remove(i);
        assert(rest[j - 1] == y);
        assert(rest.contains(x));
        assert(rest.to_multiset().count(x) > 0);
        assert(a.to_multiset().count(x) >= 2);
        let others = b.remove(p);
        assert(others.to_multiset() == b.to_multiset().remove(x));
        assert(others.to_multiset().count(x) > 0);
        assert(others.contains(x));
        let q = choose|q: int| 0 <= q < others.len() && others[q] == x;
        if q < p {
            assert(b[q] == x);
            assert(b[q].key == k && b[p].key == k);
        } else {
            assert(b[q + 1] == x);
            assert(b[p].key == k && b[q + 1].key == k);
        }
    }
}

proof fn lemma_first_duplicate(t: Seq<AqmTransitionRecord>, i: int)
    requires
        0 <= i,
        exists|m: int| i <= m && m + 1 < t.len() && #[trigger] t[m].key == t[m + 1].key,
    ensures
        i <= spec_first_duplicate(t, i),
        spec_first_duplicate(t, i) + 1 < t.len(),
        t[spec_first_duplicate(t, i)].key == t[spec_first_duplicate(t, i) + 1].key,
        forall|m: int| i <= m < spec_first_duplicate(t, i) ==> #[trigger] t[m].key != t[m + 1].key,
    decreases t.len() - i,
{
    if !(t[i].key == t[i + 1].key) {
        let m = choose|m: int| i <= m && m + 1 < t.len() && #[trigger] t[m].key == t[m + 1].key;
        assert(m > i);
        assert(t[m].key == t[m + 1].key);
        lemma_first_duplicate(t, i + 1);
    }
}

/// The key an ordered sequence reports as duplicated is the least key that repeats.
proof fn lemma_first_duplicate_least(t: Seq<AqmTransitionRecord>, k: EventKey)
    requires
        crate::sort::spec_ordered(t),
        spec_has_duplicate(t),
        spec_key_repeats(t, k),
    ensures
        spec_key_le(t[spec_first_duplicate(t, 0)].key, k),
        spec_key_repeats(t, t[spec_first_duplicate(t, 0)].key),
{
    let i0 = choose|i: int| 0 <= i && i + 1 < t.len() && #[trigger] t[i].key == t[i + 1].key;
    assert(t[i0].key == t[i0 + 1].key);
    lemma_first_duplicate(t, 0);
    let f = spec_first_duplicate(t, 0);
    assert(spec_key_repeats(t, t[f].key)) by {
        assert(t[f].key == t[f].key && t[f + 1].key == t[f].key);
    }
    let (i, j) = choose|i: int, j: int| 0 <= i < j < t.len() && (#[trigger] t[i]).key == k && (#[trigger] t[j]).key == k;
    lemma_ordered_run(t, i, j, i + 1);
    if i < f {
        assert(t[i].key != t[i + 1].key);
    }
    if f < i {
        assert(spec_key_le(t[f].key, t[i].key));
    }
}

/// Ordered sequences with the same records and no repeated key are equal.
proof fn lemma_distinct_sorted_equal(t: Seq<AqmTransitionRecord>, u: Seq<AqmTransitionRecord>)
    requires
        crate::sort::spec_ordered(t),
        crate::sort::spec_ordered(u),
        t.len() == u.len(),
        forall|x: AqmTransitionRecord| t.contains(x) <==> u.contains(x),
        forall|k: EventKey| !(#[trigger] spec_key_repeats(t, k)),
        forall|k: EventKey| !(#[trigger] spec_key_repeats(u, k)),
    ensures
        t == u,
    decreases t.len(),
{
    if t.len() > 0 {
        assert(t.contains(t[0]));
        let j = choose|j: int| 0 <= j < u.len() && u[j] == t[0];
        assert(u.contains(u[0]));
        let i = choose|i: int| 0 <= i < t.len() && t[i] == u[0];
        if i > 0 {
            assert(spec_key_le(t[0].key, t[i].key));
        }
        if j > 0 {
            assert(spec_key_le(u[0].key, u[j].key));
        }
        lemma_key_antisymmetric(t[0].key, u[0].key);
        if j > 0 {
            assert(!spec_key_repeats(u, u[0].key));
            assert(u[0].key == u[0].key && u[j].key == u[0].key);
        }
        assert(u[0] == t[0]);
        let tt = t.drop_first();
        let ut = u.drop_first();
        assert forall|x: AqmTransitionRecord| tt.contains(x) <==> ut.contains(x) by {
            if tt.contains(x) {
                let m = choose|m: int| 0 <= m < tt.len() && tt[m] == x;
                assert(t[m + 1] == x);
                assert(u.contains(x));
                let n = choose|n: int| 0 <= n < u.len() && u[n] == x;
                if n == 0 {
                    assert(!spec_key_repeats(t, t[0].key));
                    assert(t[0].key == t[0].key && t[m + 1].key == t[0].key);
                }
                assert(ut[n - 1] == x);
            }
            if ut.contains(x) {
                let m = choose|m: int| 0 <= m < ut.len() && ut[m] == x;
                assert(u[m + 1] == x);
                assert(t.contains(x));
                let n = choose|n: int| 0 <= n < t.len() && t[n] == x;
                if n == 0 {
                    assert(!spec_key_repeats(u, u[0].key));
                    assert(u[0].key == u[0].key && u[m + 1].key == u[0].key);
                }
                assert(tt[n - 1] == x);
            }
        }
        assert forall|k: EventKey| !(#[trigger] spec_key_repeats(tt, k)) by {
            if spec_key_repeats(tt, k) {
                let (a, b) = choose|a: int, b: int| 0 <= a < b < tt.len() && (#[trigger] tt[a]).key == k && (#[trigger] tt[b]).key == k;
                assert(t[a + 1].key == k && t[b + 1].key == k);
                assert(spec_key_repeats(t, k));
            }
        }
        assert forall|k: EventKey| !(#[trigger] spec_key_repeats(ut, k)) by {
            if spec_key_repeats(ut, k) {
                let (a, b) = choose|a: int, b: int| 0 <= a < b < ut.len() && (#[trigger] ut[a]).key == k && (#[trigger] ut[b]).key == k;
                assert(u[a + 1].key == k && u[b + 1].key == k);
                assert(spec_key_repeats(u, k));
            }
        }
        assert forall|a: int, b: int| 0 <= a < b < tt.len() implies (#[trigger] tt[a]).spec_le(#[trigger] tt[b]) by {
            assert(tt[a] == t[a + 1] && tt[b] == t[b + 1]);
        }
        assert forall|a: int, b: int| 0 <= a < b < ut.len() implies (#[trigger] ut[a]).spec_le(#[trigger] ut[b]) by {
            assert(ut[a] == u[a + 1] && ut[b] == u[b + 1]);
        }
        lemma_distinct_sorted_equal(tt, ut);
        assert(t =~= seq![t[0]] + tt);
        assert(u =~= seq![u[0]] + ut);
    }
}

/// The trace of a set of transitions does not depend on the order they are listed in: two lists
/// of the same records are both refused, naming the same (least) repeated key, or both give the
/// same sorted rows.
pub proof fn law_trace_ignores_record_order(a: Seq<AqmTransitionRecord>, b: Seq<AqmTransitionRecord>)
    requires
        a.to_multiset() == b.to_multiset(),
    ensures
        spec_has_duplicate(spec_merge_sort(a)) == spec_has_duplicate(spec_merge_sort(b)),
        spec_has_duplicate(spec_merge_sort(a)) ==> spec_merge_sort(a)[spec_first_duplicate(
            spec_merge_sort(a),
            0,
        )].key == spec_merge_sort(b)[spec_first_duplicate(spec_merge_sort(b), 0)].key,
        !spec_has_duplicate(spec_merge_sort(a)) ==> spec_merge_sort(a) == spec_merge_sort(b),
        spec_csv(a) == spec_csv(b),
{
    broadcast use vstd::seq_lib::group_to_multiset_ensures;
    let t = spec_merge_sort(a);
    let u = spec_merge_sort(b);
    crate::sort::law_merge_sort_is_stable_sort(a);
    crate::sort::law_merge_sort_is_stable_sort(b);
    crate::sort::lemma_merge_sort_multiset(a);
    crate::sort::lemma_merge_sort_multiset(b);
    assert(t.to_multiset() == u.to_multiset());
    lemma_duplicate_is_repeat(t);
    lemma_duplicate_is_repeat(u);
    assert forall|k: EventKey| #[trigger] spec_key_repeats(t, k) <==> spec_key_repeats(u, k) by {
        if spec_key_repeats(t, k) {
            lemma_repeat_multiset(t, u, k);
        }
        if spec_key_repeats(u, k) {
            lemma_repeat_multiset(u, t, k);
        }
    }
    if spec_has_duplicate(t) {
        lemma_first_duplicate(t, 0);
        lemma_first_duplicate(u, 0);
        let kt = t[spec_first_duplicate(t, 0)].key;
        let ku = u[spec_first_duplicate(u, 0)].key;
        assert(spec_key_repeats(t, t[spec_first_duplicate(t, 0)].key)) by {
            lemma_first_duplicate_least(t, t[spec_first_duplicate(t, 0)].key);
        }
        lemma_first_duplicate_least(u, ku);
        lemma_first_duplicate_least(t, ku);
        lemma_first_duplicate_least(u, kt);
        lemma_key_antisymmetric(kt, ku);
    } else {
        assert forall|x: AqmTransitionRecord| t.contains(x) <==> u.contains(x) by {
            assert(t.to_multiset().count(x) == u.to_multiset().count(x));
        }
        assert(t.len() == t.to_multiset().len());
        assert(u.len() == u.to_multiset().len());
        assert forall|k: EventKey| !(#[trigger] spec_key_repeats(t, k)) by {
        }
        assert forall|k: EventKey| !(#[trigger] spec_key_repeats(u, k)) by {
            assert(spec_key_repeats(t, k) <==> spec_key_repeats(u, k));
        }
        lemma_distinct_sorted_equal(t, u);
    }
}

} // verus!
