//! Canonical order of remote envelopes.
//!
//! Events a worker sends to other owners are ordered by target, then time, phase, origin node and
//! origin sequence, stably. The order is read as thirty-four ordering-key bytes, least significant
//! first; a byte that is the same in every envelope cannot separate any two of them, so a pass over
//! it can be skipped without changing the order.

use vstd::prelude::*;
use crate::cpu::{
    remote_order_byte, spec_byte, spec_remote_order_byte, spec_varying_byte_mask, varying_byte_mask,
    REMOTE_ORDER_BYTES,
};
use crate::event::Event;
use crate::image::PacketDescriptor;
use crate::sort::{
    law_merge_sort_is_stable_sort, spec_class, spec_merge_sort, spec_ordered, SortKey,
};

verus! {

/// A remote event and the packet it carries.
#[derive(Clone, Copy, Debug, PartialEq, Eq, Structural)]
pub struct RemoteEnvelope {
    pub event: Event,
    pub packet: PacketDescriptor,
}

/// Bit `p` of `mask` is set.
pub open spec fn spec_bit(mask: u64, p: int) -> bool {
    (mask >> (p as u64)) & 1 == 1
}

/// Some envelope among the first `upto` differs from the first envelope in ordering byte `pass`.
pub open spec fn spec_pass_varies(events: Seq<RemoteEnvelope>, upto: int, pass: int) -> bool {
    exists|j: int|
        0 <= j < upto && #[trigger] spec_remote_order_byte(events[j].event, pass)
            != spec_remote_order_byte(events[0].event, pass)
}

proof fn lemma_bit_or(a: u64, b: u64, p: u64)
    requires
        p < 64,
    ensures
        spec_bit(a | b, p as int) == (spec_bit(a, p as int) || spec_bit(b, p as int)),
{
    assert(((a | b) >> p) & 1 == 1 <==> ((a >> p) & 1 == 1 || (b >> p) & 1 == 1)) by (bit_vector)
        requires
            p < 64,
    ;
}

proof fn lemma_bit_set(m: u64, s: u64, p: u64)
    requires
        s < 64,
        p < 64,
    ensures
        spec_bit(m | (1u64 << s), p as int) == (spec_bit(m, p as int) || p == s),
{
    assert(((m | (1u64 << s)) >> p) & 1 == 1 <==> ((m >> p) & 1 == 1 || p == s)) by (bit_vector)
        requires
            s < 64,
            p < 64,
    ;
}

proof fn lemma_bit_zero(p: u64)
    requires
        p < 64,
    ensures
        !spec_bit(0, p as int),
{
    assert((0u64 >> p) & 1 != 1) by (bit_vector);
}

/// Bit `p` of a byte mask built from `first_pass` is set exactly for the nonzero bytes of `value`.
proof fn lemma_varying_byte_mask_bits(value: u64, first_pass: int, upto: int, p: int)
    requires
        0 <= first_pass,
        0 <= upto <= 8,
        first_pass + 8 <= 64,
        0 <= p < 64,
    ensures
        spec_bit(spec_varying_byte_mask(value, first_pass, upto), p) == (first_pass <= p
            < first_pass + upto && spec_byte(value, (p - first_pass) as u64) != 0),
    decreases upto,
{
    if upto <= 0 {
        lemma_bit_zero(p as u64);
    } else {
        lemma_varying_byte_mask_bits(value, first_pass, upto - 1, p);
        let previous = spec_varying_byte_mask(value, first_pass, upto - 1);
        if spec_byte(value, (upto - 1) as u64) != 0 {
            lemma_bit_set(previous, (first_pass + upto - 1) as u64, p as u64);
        }
    }
}

/// `acc | (first ^ value)`: the bytes already known to vary, plus those where `value` differs
/// from `first`.
fn accumulate_difference(acc: u64, first: u64, value: u64) -> (next: u64)
    ensures
        next == acc | (first ^ value),
        forall|k: u64|
            k < 8 ==> (#[trigger] spec_byte(next, k) != 0) == (spec_byte(acc, k) != 0 || spec_byte(
                first,
                k,
            ) != spec_byte(value, k)),
{
    let next = acc | (first ^ value);
    assert forall|k: u64| k < 8 implies (#[trigger] spec_byte(next, k) != 0) == (spec_byte(acc, k)
        != 0 || spec_byte(first, k) != spec_byte(value, k)) by {
        assert((((acc | (first ^ value)) >> ((k * 8) as u64)) & 0xff != 0) == (((acc >> ((k
            * 8) as u64)) & 0xff) != 0 || ((first >> ((k * 8) as u64)) & 0xff) != ((value >> ((k
            * 8) as u64)) & 0xff))) by (bit_vector)
            requires
                k < 8,
        ;
    }
    next
}

/// Invariant of the difference accumulator of one key field whose bytes are passes
/// `first_pass .. first_pass + bytes`.
pub open spec fn spec_field_acc(
    events: Seq<RemoteEnvelope>,
    upto: int,
    acc: u64,
    first_pass: int,
    bytes: int,
) -> bool {
    forall|k: u64|
        k < bytes ==> (#[trigger] spec_byte(acc, k) != 0) == spec_pass_varies(
            events,
            upto,
            first_pass + k,
        )
}

proof fn lemma_pass_varies_step(events: Seq<RemoteEnvelope>, i: int, pass: int)
    requires
        1 <= i < events.len(),
    ensures
        spec_pass_varies(events, i + 1, pass) == (spec_pass_varies(events, i, pass)
            || spec_remote_order_byte(events[i].event, pass) != spec_remote_order_byte(
            events[0].event,
            pass,
        )),
{
    if spec_pass_varies(events, i + 1, pass) {
        let j = choose|j: int|
            0 <= j < i + 1 && #[trigger] spec_remote_order_byte(events[j].event, pass)
                != spec_remote_order_byte(events[0].event, pass);
        if j < i {
            assert(spec_pass_varies(events, i, pass));
        }
    }
    if spec_remote_order_byte(events[i].event, pass) != spec_remote_order_byte(events[0].event, pass) {
        assert(spec_pass_varies(events, i + 1, pass));
    }
    if spec_pass_varies(events, i, pass) {
        let j = choose|j: int|
            0 <= j < i && #[trigger] spec_remote_order_byte(events[j].event, pass)
                != spec_remote_order_byte(events[0].event, pass);
        assert(spec_pass_varies(events, i + 1, pass));
    }
}

proof fn lemma_short_field_bytes(value: u16, k: u64)
    requires
        2 <= k < 8,
    ensures
        spec_byte(value as u64, k) == 0,
{
    let wide = value as u64;
    assert(wide < 0x1_0000);
    assert(wide < 0x1_0000 ==> (wide >> ((k * 8) as u64)) & 0xff == 0) by (bit_vector)
        requires
            2 <= k < 8,
    ;
}

/// The ordering-key passes that can separate two of the envelopes: bit `p` is set exactly when
/// some envelope's ordering byte `p` differs from the first envelope's. Passes past the key stay
/// clear.
pub fn remote_envelope_varying_bytes(events: &[RemoteEnvelope]) -> (mask: u64)
    requires
        events@.len() >= 1,
    ensures
        forall|p: int|
            0 <= p < 64 ==> #[trigger] spec_bit(mask, p) == (p < REMOTE_ORDER_BYTES
                && spec_pass_varies(events@, events@.len() as int, p)),
{
    let first = events[0].event;
    let mut target: u64 = 0;
    let mut time: u64 = 0;
    let mut phase: u64 = 0;
    let mut origin_node: u64 = 0;
    let mut origin_seq: u64 = 0;
    proof {
        assert forall|p: int| !spec_pass_varies(events@, 1, p) by {
        }
        assert forall|k: u64| #[trigger] spec_byte(0, k) == 0 by {
            assert((0u64 >> ((k * 8) as u64)) & 0xff == 0) by (bit_vector);
        }
    }
    let mut i: usize = 1;
    while i < events.len()
        invariant
            1 <= i <= events@.len(),
            first == events@[0].event,
            spec_field_acc(events@, i as int, origin_seq, 0, 8),
            spec_field_acc(events@, i as int, origin_node, 8, 8),
            spec_field_acc(events@, i as int, phase, 16, 2),
            phase < 0x1_0000,
            spec_field_acc(events@, i as int, time, 18, 8),
            spec_field_acc(events@, i as int, target, 26, 8),
        decreases events@.len() - i,
    {
        let event = events[i].event;
        proof {
            assert forall|pass: int| #[trigger] spec_pass_varies(events@, i + 1, pass) == (
            spec_pass_varies(events@, i as int, pass) || spec_remote_order_byte(event, pass)
                != spec_remote_order_byte(first, pass)) by {
                lemma_pass_varies_step(events@, i as int, pass);
            }
        }
        target = accumulate_difference(target, first.target.0, event.target.0);
        time = accumulate_difference(time, first.key.time_ns, event.key.time_ns);
        let next_phase = accumulate_difference(phase, first.key.phase as u64, event.key.phase as u64);
        proof {
            let old_phase = phase;
            let a = first.key.phase as u64;
            let b = event.key.phase as u64;
            assert(old_phase < 0x1_0000 && a < 0x1_0000 && b < 0x1_0000);
            assert(next_phase == old_phase | (a ^ b));
            assert(old_phase < 0x1_0000 && a < 0x1_0000 && b < 0x1_0000 ==> (old_phase | (a ^ b))
                < 0x1_0000) by (bit_vector);
        }
        phase = next_phase;
        origin_node = accumulate_difference(origin_node, first.key.origin_node.0, event.key.origin_node.0);
        origin_seq = accumulate_difference(origin_seq, first.key.origin_seq, event.key.origin_seq);
        proof {
            assert forall|k: u64| k < 8 implies (#[trigger] spec_byte(origin_seq, k) != 0)
                == spec_pass_varies(events@, i + 1, 0 + k) by {
                assert(spec_remote_order_byte(event, k as int) == spec_byte(event.key.origin_seq, k));
                assert(spec_remote_order_byte(first, k as int) == spec_byte(first.key.origin_seq, k));
            }
            assert forall|k: u64| k < 8 implies (#[trigger] spec_byte(origin_node, k) != 0)
                == spec_pass_varies(events@, i + 1, 8 + k) by {
                assert(spec_remote_order_byte(event, 8 + k) == spec_byte(event.key.origin_node.0, k));
                assert(spec_remote_order_byte(first, 8 + k) == spec_byte(first.key.origin_node.0, k));
            }
            assert forall|k: u64| k < 2 implies (#[trigger] spec_byte(phase, k) != 0)
                == spec_pass_varies(events@, i + 1, 16 + k) by {
                assert(spec_remote_order_byte(event, 16 + k) == spec_byte(event.key.phase as u64, k));
                assert(spec_remote_order_byte(first, 16 + k) == spec_byte(first.key.phase as u64, k));
            }
            assert forall|k: u64| k < 8 implies (#[trigger] spec_byte(time, k) != 0)
                == spec_pass_varies(events@, i + 1, 18 + k) by {
                assert(spec_remote_order_byte(event, 18 + k) == spec_byte(event.key.time_ns, k));
                assert(spec_remote_order_byte(first, 18 + k) == spec_byte(first.key.time_ns, k));
            }
            assert forall|k: u64| k < 8 implies (#[trigger] spec_byte(target, k) != 0)
                == spec_pass_varies(events@, i + 1, 26 + k) by {
                assert(spec_remote_order_byte(event, 26 + k) == spec_byte(event.target.0, k));
                assert(spec_remote_order_byte(first, 26 + k) == spec_byte(first.target.0, k));
            }
        }
        i = i + 1;
    }
    let seq_mask = varying_byte_mask(origin_seq, 0);
    let node_mask = varying_byte_mask(origin_node, 8);
    let phase_mask = varying_byte_mask(phase, 16);
    let time_mask = varying_byte_mask(time, 18);
    let target_mask = varying_byte_mask(target, 26);
    let mask = seq_mask | node_mask | phase_mask | time_mask | target_mask;
    proof {
        let n = events@.len() as int;
        assert forall|p: int| 0 <= p < 64 implies #[trigger] spec_bit(mask, p) == (p
            < REMOTE_ORDER_BYTES && spec_pass_varies(events@, n, p)) by {
            let q = p as u64;
            lemma_bit_or(seq_mask | node_mask | phase_mask | time_mask, target_mask, q);
            lemma_bit_or(seq_mask | node_mask | phase_mask, time_mask, q);
            lemma_bit_or(seq_mask | node_mask, phase_mask, q);
            lemma_bit_or(seq_mask, node_mask, q);
            lemma_varying_byte_mask_bits(origin_seq, 0, 8, p);
            lemma_varying_byte_mask_bits(origin_node, 8, 8, p);
            lemma_varying_byte_mask_bits(phase, 16, 8, p);
            lemma_varying_byte_mask_bits(time, 18, 8, p);
            lemma_varying_byte_mask_bits(target, 26, 8, p);
            if 16 <= p < 24 && p >= 18 {
                lemma_short_field_bytes(phase as u16, (p - 16) as u64);
                assert(phase as u16 as u64 == phase);
            }
            if p >= REMOTE_ORDER_BYTES {
                assert(!spec_pass_varies(events@, n, p)) by {
                    if spec_pass_varies(events@, n, p) {
                        let j = choose|j: int|
                            0 <= j < n && #[trigger] spec_remote_order_byte(events@[j].event, p)
                                != spec_remote_order_byte(events@[0].event, p);
                    }
                }
            }
            if 0 <= p < 8 {
                assert(spec_byte(origin_seq, (p - 0) as u64) != 0 == spec_pass_varies(events@, n, 0 + (p as u64)));
            } else if 8 <= p < 16 {
                assert(spec_byte(origin_node, (p - 8) as u64) != 0 == spec_pass_varies(events@, n, 8 + ((p - 8) as u64)));
            } else if 16 <= p < 18 {
                assert(spec_byte(phase, (p - 16) as u64) != 0 == spec_pass_varies(events@, n, 16 + ((p - 16) as u64)));
            } else if 18 <= p < 26 {
                assert(spec_byte(time, (p - 18) as u64) != 0 == spec_pass_varies(events@, n, 18 + ((p - 18) as u64)));
            } else if 26 <= p < 34 {
                assert(spec_byte(target, (p - 26) as u64) != 0 == spec_pass_varies(events@, n, 26 + ((p - 26) as u64)));
            }
        }
    }
    mask
}

// ---------------------------------------------------------------------------------------------
// Subsequences selected by a predicate.
// ---------------------------------------------------------------------------------------------

/// The items of `s` that `keep` selects, in order.
pub open spec fn spec_filter(s: Seq<RemoteEnvelope>, keep: spec_fn(RemoteEnvelope) -> bool) -> Seq<
    RemoteEnvelope,
>
    decreases s.len(),
{
    if s.len() == 0 {
        Seq::empty()
    } else if keep(s.last()) {
        spec_filter(s.drop_last(), keep).push(s.last())
    } else {
        spec_filter(s.drop_last(), keep)
    }
}

proof fn lemma_filter_push(s: Seq<RemoteEnvelope>, x: RemoteEnvelope, keep: spec_fn(RemoteEnvelope) -> bool)
    ensures
        spec_filter(s.push(x), keep) == if keep(x) {
            spec_filter(s, keep).push(x)
        } else {
            spec_filter(s, keep)
        },
{
    assert(s.push(x).drop_last() =~= s);
}

proof fn lemma_filter_concat(
    a: Seq<RemoteEnvelope>,
    b: Seq<RemoteEnvelope>,
    keep: spec_fn(RemoteEnvelope) -> bool,
)
    ensures
        spec_filter(a + b, keep) == spec_filter(a, keep) + spec_filter(b, keep),
    decreases b.len(),
{
    if b.len() == 0 {
        assert(a + b =~= a);
        assert(spec_filter(a, keep) + spec_filter(b, keep) =~= spec_filter(a, keep));
    } else {
        lemma_filter_concat(a, b.drop_last(), keep);
        assert((a + b).drop_last() =~= a + b.drop_last());
        assert((a + b).last() == b.last());
        if keep(b.last()) {
            assert(spec_filter(a + b, keep) =~= spec_filter(a, keep) + spec_filter(b, keep));
        }
    }
}

proof fn lemma_filter_members(s: Seq<RemoteEnvelope>, keep: spec_fn(RemoteEnvelope) -> bool, i: int)
    requires
        0 <= i < spec_filter(s, keep).len(),
    ensures
        keep(spec_filter(s, keep)[i]),
        s.contains(spec_filter(s, keep)[i]),
    decreases s.len(),
{
    let rest = spec_filter(s.drop_last(), keep);
    if keep(s.last()) && i == rest.len() {
        assert(s[s.len() - 1] == s.last());
    } else {
        lemma_filter_members(s.drop_last(), keep, i);
        let j = choose|j: int| 0 <= j < s.drop_last().len() && s.drop_last()[j] == rest[i];
        assert(s[j] == rest[i]);
    }
}

proof fn lemma_filter_contains(s: Seq<RemoteEnvelope>, keep: spec_fn(RemoteEnvelope) -> bool, i: int)
    requires
        0 <= i < s.len(),
        keep(s[i]),
    ensures
        spec_filter(s, keep).contains(s[i]),
    decreases s.len(),
{
    if i == s.len() - 1 {
        assert(spec_filter(s, keep).last() == s[i]);
    } else {
        assert(s.drop_last()[i] == s[i]);
        lemma_filter_contains(s.drop_last(), keep, i);
        let rest = spec_filter(s.drop_last(), keep);
        let j = choose|j: int| 0 <= j < rest.len() && rest[j] == s[i];
        assert(spec_filter(s, keep)[j] == s[i]);
    }
}

/// Predicates that agree on every item select the same subsequence.
proof fn lemma_filter_pointwise(
    s: Seq<RemoteEnvelope>,
    first: spec_fn(RemoteEnvelope) -> bool,
    second: spec_fn(RemoteEnvelope) -> bool,
)
    requires
        forall|i: int| 0 <= i < s.len() ==> first(#[trigger] s[i]) == second(s[i]),
    ensures
        spec_filter(s, first) == spec_filter(s, second),
    decreases s.len(),
{
    if s.len() > 0 {
        assert(first(s[s.len() - 1]) == second(s[s.len() - 1]));
        assert forall|i: int| 0 <= i < s.drop_last().len() implies first(#[trigger] s.drop_last()[i])
            == second(s.drop_last()[i]) by {
            assert(s.drop_last()[i] == s[i]);
        }
        lemma_filter_pointwise(s.drop_last(), first, second);
    }
}

/// Selecting with `outer` among the items `inner` selected is selecting with `both`.
proof fn lemma_filter_nested(
    s: Seq<RemoteEnvelope>,
    inner: spec_fn(RemoteEnvelope) -> bool,
    outer: spec_fn(RemoteEnvelope) -> bool,
    both: spec_fn(RemoteEnvelope) -> bool,
)
    requires
        forall|i: int| 0 <= i < s.len() ==> (inner(#[trigger] s[i]) && outer(s[i])) == both(s[i]),
    ensures
        spec_filter(spec_filter(s, inner), outer) == spec_filter(s, both),
    decreases s.len(),
{
    if s.len() > 0 {
        let x = s.last();
        assert((inner(s[s.len() - 1]) && outer(s[s.len() - 1])) == both(s[s.len() - 1]));
        assert forall|i: int| 0 <= i < s.drop_last().len() implies (inner(#[trigger] s.drop_last()[i])
            && outer(s.drop_last()[i])) == both(s.drop_last()[i]) by {
            assert(s.drop_last()[i] == s[i]);
        }
        lemma_filter_nested(s.drop_last(), inner, outer, both);
        if inner(x) {
            lemma_filter_push(spec_filter(s.drop_last(), inner), x, outer);
        }
    }
}

proof fn lemma_filter_none(s: Seq<RemoteEnvelope>, keep: spec_fn(RemoteEnvelope) -> bool)
    requires
        forall|i: int| 0 <= i < s.len() ==> !keep(#[trigger] s[i]),
    ensures
        spec_filter(s, keep) == Seq::<RemoteEnvelope>::empty(),
    decreases s.len(),
{
    if s.len() > 0 {
        assert(!keep(s[s.len() - 1]));
        assert forall|i: int| 0 <= i < s.drop_last().len() implies !keep(#[trigger] s.drop_last()[i]) by {
            assert(s.drop_last()[i] == s[i]);
        }
        lemma_filter_none(s.drop_last(), keep);
    }
}

// ---------------------------------------------------------------------------------------------
// The ordering key read a byte at a time.
// ---------------------------------------------------------------------------------------------

/// Ordering byte `pass` of an envelope.
pub open spec fn spec_digit(e: RemoteEnvelope, pass: int) -> int {
    spec_remote_order_byte(e.event, pass) as int
}

/// `256^p`.
pub open spec fn spec_radix_power(p: nat) -> int
    decreases p,
{
    if p == 0 {
        1
    } else {
        256 * spec_radix_power((p - 1) as nat)
    }
}

/// The value of an envelope's first `p` ordering bytes, least significant first.
pub open spec fn spec_partial_key(e: RemoteEnvelope, p: nat) -> int
    decreases p,
{
    if p == 0 {
        0
    } else {
        spec_partial_key(e, (p - 1) as nat) + spec_digit(e, p - 1) * spec_radix_power((p - 1) as nat)
    }
}

/// Selects the envelopes whose first `p` ordering bytes have value `k`.
pub open spec fn spec_key_is(p: nat, k: int) -> spec_fn(RemoteEnvelope) -> bool {
    |y: RemoteEnvelope| spec_partial_key(y, p) == k
}

/// Selects the envelopes whose ordering byte `p` is `v`.
pub open spec fn spec_digit_is(p: nat, v: int) -> spec_fn(RemoteEnvelope) -> bool {
    |y: RemoteEnvelope| spec_digit(y, p as int) == v
}

/// Selects the envelopes whose ordering byte `p` is `v` and whose first `p` bytes have value `k`.
pub open spec fn spec_digit_and_key(p: nat, v: int, k: int) -> spec_fn(RemoteEnvelope) -> bool {
    |y: RemoteEnvelope| spec_digit(y, p as int) == v && spec_partial_key(y, p) == k
}

/// Ordered by the first `p` ordering bytes.
pub open spec fn spec_ordered_by_key(t: Seq<RemoteEnvelope>, p: nat) -> bool {
    forall|i: int, j: int|
        0 <= i < j < t.len() ==> spec_partial_key(#[trigger] t[i], p) <= spec_partial_key(#[trigger] t[j], p)
}

/// `t` is the stable sort of `s` by the first `p` ordering bytes: ordered by them, and for every
/// value of them the envelopes with that value are those of `s`, in the same order.
pub open spec fn spec_sorted_through(t: Seq<RemoteEnvelope>, s: Seq<RemoteEnvelope>, p: nat) -> bool {
    &&& spec_ordered_by_key(t, p)
    &&& forall|k: int| #[trigger] spec_filter(t, spec_key_is(p, k)) == spec_filter(s, spec_key_is(p, k))
}

proof fn lemma_digit_range(e: RemoteEnvelope, pass: int)
    ensures
        0 <= spec_digit(e, pass) <= 255,
{
    assert forall|v: u64, b: u64| #[trigger] spec_byte(v, b) <= 255 by {
        assert((v >> ((b * 8) as u64)) & 0xff <= 0xff) by (bit_vector);
    }
}

proof fn lemma_power_positive(p: nat)
    ensures
        spec_radix_power(p) >= 1,
    decreases p,
{
    if p > 0 {
        lemma_power_positive((p - 1) as nat);
    }
}

proof fn lemma_key_range(e: RemoteEnvelope, p: nat)
    ensures
        0 <= spec_partial_key(e, p) < spec_radix_power(p),
    decreases p,
{
    if p > 0 {
        let q = (p - 1) as nat;
        lemma_key_range(e, q);
        lemma_digit_range(e, q as int);
        lemma_power_positive(q);
        let key = spec_partial_key(e, q);
        let digit = spec_digit(e, q as int);
        let power = spec_radix_power(q);
        assert(0 <= key + digit * power < 256 * power) by (nonlinear_arith)
            requires
                0 <= key < power,
                0 <= digit <= 255,
        ;
    }
}

/// The first `p + 1` bytes have value `k` exactly when byte `p` and the first `p` bytes are the
/// quotient and remainder of `k` by `256^p`.
proof fn lemma_key_split(e: RemoteEnvelope, p: nat, k: int)
    ensures
        (spec_partial_key(e, p + 1) == k) == (spec_digit(e, p as int) == k / spec_radix_power(p)
            && spec_partial_key(e, p) == k % spec_radix_power(p)),
{
    lemma_key_range(e, p);
    lemma_power_positive(p);
    let power = spec_radix_power(p);
    let digit = spec_digit(e, p as int);
    let key = spec_partial_key(e, p);
    assert(spec_partial_key(e, p + 1) == key + digit * power);
    if spec_partial_key(e, p + 1) == k {
        assert(k == digit * power + key);
        vstd::arithmetic::div_mod::lemma_fundamental_div_mod_converse(k, power, digit, key);
    }
    if digit == k / power && key == k % power {
        vstd::arithmetic::div_mod::lemma_fundamental_div_mod(k, power);
        assert(k == power * (k / power) + k % power);
        assert(digit * power == power * digit) by (nonlinear_arith);
    }
}

proof fn lemma_filter_ordered(s: Seq<RemoteEnvelope>, keep: spec_fn(RemoteEnvelope) -> bool, p: nat)
    requires
        spec_ordered_by_key(s, p),
    ensures
        spec_ordered_by_key(spec_filter(s, keep), p),
    decreases s.len(),
{
    if s.len() > 0 {
        let prefix = s.drop_last();
        assert forall|i: int, j: int| 0 <= i < j < prefix.len() implies spec_partial_key(#[trigger] prefix[i], p)
            <= spec_partial_key(#[trigger] prefix[j], p) by {
            assert(prefix[i] == s[i] && prefix[j] == s[j]);
        }
        lemma_filter_ordered(prefix, keep, p);
        let rest = spec_filter(prefix, keep);
        if keep(s.last()) {
            let out = rest.push(s.last());
            assert forall|i: int, j: int| 0 <= i < j < out.len() implies spec_partial_key(#[trigger] out[i], p)
                <= spec_partial_key(#[trigger] out[j], p) by {
                if j == rest.len() {
                    lemma_filter_members(prefix, keep, i);
                    let m = choose|m: int| 0 <= m < prefix.len() && prefix[m] == rest[i];
                    assert(s[m] == rest[i]);
                    assert(s[s.len() - 1] == s.last());
                } else {
                    assert(out[i] == rest[i] && out[j] == rest[j]);
                }
            }
        }
    }
}

// ---------------------------------------------------------------------------------------------
// One radix pass: a stable partition by one ordering byte.
// ---------------------------------------------------------------------------------------------

/// The envelopes with ordering byte `p` below `n`, byte value by byte value, each in input order.
pub open spec fn spec_buckets(t: Seq<RemoteEnvelope>, p: nat, n: int) -> Seq<RemoteEnvelope>
    decreases n,
{
    if n <= 0 {
        Seq::empty()
    } else {
        spec_buckets(t, p, n - 1) + spec_filter(t, spec_digit_is(p, n - 1))
    }
}

/// A pass keeps the partitions ordered: below byte value `n`, the result is ordered by the first
/// `p + 1` bytes and every key is below `n * 256^p`.
proof fn lemma_buckets_ordered(t: Seq<RemoteEnvelope>, p: nat, n: int)
    requires
        spec_ordered_by_key(t, p),
        0 <= n,
    ensures
        spec_ordered_by_key(spec_buckets(t, p, n), p + 1),
        forall|i: int|
            0 <= i < spec_buckets(t, p, n).len() ==> spec_partial_key(
                #[trigger] spec_buckets(t, p, n)[i],
                p + 1,
            ) < n * spec_radix_power(p),
    decreases n,
{
    lemma_power_positive(p);
    let power = spec_radix_power(p);
    if n > 0 {
        lemma_buckets_ordered(t, p, n - 1);
        let before = spec_buckets(t, p, n - 1);
        let bucket = spec_filter(t, spec_digit_is(p, n - 1));
        let all = spec_buckets(t, p, n);
        assert(all == before + bucket);
        lemma_filter_ordered(t, spec_digit_is(p, n - 1), p);
        assert forall|i: int| 0 <= i < bucket.len() implies {
            &&& spec_partial_key(#[trigger] bucket[i], p + 1) == spec_partial_key(bucket[i], p) + (n - 1) * power
            &&& (n - 1) * power <= spec_partial_key(bucket[i], p + 1) < n * power
        } by {
            lemma_filter_members(t, spec_digit_is(p, n - 1), i);
            lemma_key_range(bucket[i], p);
            let key = spec_partial_key(bucket[i], p);
            assert(spec_digit(bucket[i], p as int) == n - 1);
            assert(spec_partial_key(bucket[i], p + 1) == key + (n - 1) * power);
            assert((n - 1) * power + key < n * power) by (nonlinear_arith)
                requires
                    key < power,
            ;
        }
        assert forall|i: int| 0 <= i < all.len() implies spec_partial_key(#[trigger] all[i], p + 1) < n
            * power by {
            if i < before.len() {
                assert(all[i] == before[i]);
                assert((n - 1) * power <= n * power) by (nonlinear_arith)
                    requires
                        power >= 1,
                ;
            } else {
                assert(all[i] == bucket[i - before.len()]);
            }
        }
        assert forall|i: int, j: int| 0 <= i < j < all.len() implies spec_partial_key(#[trigger] all[i], p + 1)
            <= spec_partial_key(#[trigger] all[j], p + 1) by {
            if j < before.len() {
                assert(all[i] == before[i] && all[j] == before[j]);
            } else if i < before.len() {
                assert(all[i] == before[i]);
                assert(all[j] == bucket[j - before.len()]);
            } else {
                assert(all[i] == bucket[i - before.len()]);
                assert(all[j] == bucket[j - before.len()]);
            }
        }
    }
}

/// Below byte value `n`, a pass selects for key value `k` of the first `p + 1` bytes exactly the
/// input envelopes of that byte value and remaining key, in input order.
proof fn lemma_buckets_select(t: Seq<RemoteEnvelope>, p: nat, n: int, k: int)
    requires
        0 <= n,
    ensures
        spec_filter(spec_buckets(t, p, n), spec_key_is(p + 1, k)) == if 0 <= k / spec_radix_power(p) < n {
            spec_filter(t, spec_digit_and_key(p, k / spec_radix_power(p), k % spec_radix_power(p)))
        } else {
            Seq::<RemoteEnvelope>::empty()
        },
    decreases n,
{
    lemma_power_positive(p);
    let power = spec_radix_power(p);
    let v0 = k / power;
    let k0 = k % power;
    if n > 0 {
        lemma_buckets_select(t, p, n - 1, k);
        let before = spec_buckets(t, p, n - 1);
        let bucket = spec_filter(t, spec_digit_is(p, n - 1));
        lemma_filter_concat(before, bucket, spec_key_is(p + 1, k));
        // Within the bucket of byte value `n - 1`, key `k` needs byte value `v0`.
        assert forall|i: int| 0 <= i < t.len() implies (spec_digit_is(p, n - 1)(#[trigger] t[i])
            && spec_key_is(p + 1, k)(t[i])) == (n - 1 == v0 && spec_digit_and_key(p, v0, k0)(t[i])) by {
            lemma_key_split(t[i], p, k);
        }
        if n - 1 == v0 {
            lemma_filter_nested(
                t,
                spec_digit_is(p, n - 1),
                spec_key_is(p + 1, k),
                spec_digit_and_key(p, v0, k0),
            );
            if 0 <= v0 {
                assert(spec_filter(before, spec_key_is(p + 1, k)) == Seq::<RemoteEnvelope>::empty());
                assert(Seq::<RemoteEnvelope>::empty() + spec_filter(t, spec_digit_and_key(p, v0, k0))
                    =~= spec_filter(t, spec_digit_and_key(p, v0, k0)));
            } else {
                lemma_filter_none(t, spec_digit_and_key(p, v0, k0));
                assert forall|i: int| 0 <= i < t.len() implies !spec_digit_and_key(p, v0, k0)(#[trigger] t[i]) by {
                    lemma_digit_range(t[i], p as int);
                }
                lemma_filter_none(t, spec_digit_and_key(p, v0, k0));
                assert(Seq::<RemoteEnvelope>::empty() + Seq::<RemoteEnvelope>::empty() =~= Seq::<RemoteEnvelope>::empty());
            }
        } else {
            let nothing = |y: RemoteEnvelope| false;
            lemma_filter_nested(t, spec_digit_is(p, n - 1), spec_key_is(p + 1, k), nothing);
            assert forall|i: int| 0 <= i < t.len() implies !nothing(#[trigger] t[i]) by {
            }
            lemma_filter_none(t, nothing);
            let previous = spec_filter(before, spec_key_is(p + 1, k));
            assert(previous + Seq::<RemoteEnvelope>::empty() =~= previous);
        }
    }
}

/// One pass over the stable sort by the first `p` bytes is the stable sort by the first `p + 1`.
proof fn lemma_pass_sorts(t: Seq<RemoteEnvelope>, s: Seq<RemoteEnvelope>, p: nat)
    requires
        spec_sorted_through(t, s, p),
    ensures
        spec_sorted_through(spec_buckets(t, p, 256), s, p + 1),
{
    lemma_buckets_ordered(t, p, 256);
    lemma_power_positive(p);
    let power = spec_radix_power(p);
    let out = spec_buckets(t, p, 256);
    assert forall|k: int| #[trigger] spec_filter(out, spec_key_is(p + 1, k)) == spec_filter(
        s,
        spec_key_is(p + 1, k),
    ) by {
        let v0 = k / power;
        let k0 = k % power;
        lemma_buckets_select(t, p, 256, k);
        assert forall|i: int| 0 <= i < s.len() implies spec_key_is(p + 1, k)(#[trigger] s[i])
            == spec_digit_and_key(p, v0, k0)(s[i]) by {
            lemma_key_split(s[i], p, k);
        }
        lemma_filter_pointwise(s, spec_key_is(p + 1, k), spec_digit_and_key(p, v0, k0));
        lemma_filter_nested(t, spec_key_is(p, k0), spec_digit_is(p, v0), spec_digit_and_key(p, v0, k0));
        lemma_filter_nested(s, spec_key_is(p, k0), spec_digit_is(p, v0), spec_digit_and_key(p, v0, k0));
        assert(spec_filter(t, spec_key_is(p, k0)) == spec_filter(s, spec_key_is(p, k0)));
        if !(0 <= v0 < 256) {
            assert forall|i: int| 0 <= i < s.len() implies !spec_digit_and_key(p, v0, k0)(#[trigger] s[i]) by {
                lemma_digit_range(s[i], p as int);
            }
            lemma_filter_none(s, spec_digit_and_key(p, v0, k0));
        }
    }
}

/// Every envelope of the stable sort is an envelope of its input.
proof fn lemma_sorted_members(t: Seq<RemoteEnvelope>, s: Seq<RemoteEnvelope>, p: nat, i: int)
    requires
        spec_sorted_through(t, s, p),
        0 <= i < t.len(),
    ensures
        s.contains(t[i]),
{
    let k = spec_partial_key(t[i], p);
    lemma_filter_contains(t, spec_key_is(p, k), i);
    assert(spec_filter(t, spec_key_is(p, k)) == spec_filter(s, spec_key_is(p, k)));
    let selected = spec_filter(s, spec_key_is(p, k));
    let j = choose|j: int| 0 <= j < selected.len() && selected[j] == t[i];
    lemma_filter_members(s, spec_key_is(p, k), j);
}

/// A byte that is the same in every input envelope leaves the stable sort unchanged.
proof fn lemma_constant_pass(t: Seq<RemoteEnvelope>, s: Seq<RemoteEnvelope>, p: nat, c: int)
    requires
        spec_sorted_through(t, s, p),
        forall|i: int| 0 <= i < s.len() ==> spec_digit(#[trigger] s[i], p as int) == c,
    ensures
        spec_sorted_through(t, s, p + 1),
{
    let power = spec_radix_power(p);
    assert forall|i: int| 0 <= i < t.len() implies spec_digit(#[trigger] t[i], p as int) == c by {
        lemma_sorted_members(t, s, p, i);
        let j = choose|j: int| 0 <= j < s.len() && s[j] == t[i];
        assert(spec_digit(s[j], p as int) == c);
    }
    assert forall|i: int, j: int| 0 <= i < j < t.len() implies spec_partial_key(#[trigger] t[i], p + 1)
        <= spec_partial_key(#[trigger] t[j], p + 1) by {
        assert(spec_digit(t[i], p as int) == c && spec_digit(t[j], p as int) == c);
    }
    assert forall|k: int| #[trigger] spec_filter(t, spec_key_is(p + 1, k)) == spec_filter(
        s,
        spec_key_is(p + 1, k),
    ) by {
        let shifted = k - c * power;
        assert forall|i: int| 0 <= i < t.len() implies spec_key_is(p + 1, k)(#[trigger] t[i])
            == spec_key_is(p, shifted)(t[i]) by {
            assert(spec_digit(t[i], p as int) == c);
        }
        assert forall|i: int| 0 <= i < s.len() implies spec_key_is(p + 1, k)(#[trigger] s[i])
            == spec_key_is(p, shifted)(s[i]) by {
            assert(spec_digit(s[i], p as int) == c);
        }
        lemma_filter_pointwise(t, spec_key_is(p + 1, k), spec_key_is(p, shifted));
        lemma_filter_pointwise(s, spec_key_is(p + 1, k), spec_key_is(p, shifted));
        assert(spec_filter(t, spec_key_is(p, shifted)) == spec_filter(s, spec_key_is(p, shifted)));
    }
}

/// Remote envelope order: target, then time, phase, origin node and origin sequence.
pub open spec fn spec_remote_le(a: RemoteEnvelope, b: RemoteEnvelope) -> bool {
    let (x, y) = (a.event, b.event);
    ||| x.target.0 < y.target.0
    ||| x.target.0 == y.target.0 && x.key.time_ns < y.key.time_ns
    ||| x.target.0 == y.target.0 && x.key.time_ns == y.key.time_ns && x.key.phase < y.key.phase
    ||| x.target.0 == y.target.0 && x.key.time_ns == y.key.time_ns && x.key.phase == y.key.phase
        && x.key.origin_node.0 < y.key.origin_node.0
    ||| x.target.0 == y.target.0 && x.key.time_ns == y.key.time_ns && x.key.phase == y.key.phase
        && x.key.origin_node.0 == y.key.origin_node.0 && x.key.origin_seq <= y.key.origin_seq
}

impl SortKey for RemoteEnvelope {
    open spec fn spec_le(self, other: Self) -> bool {
        spec_remote_le(self, other)
    }

    fn le_key(&self, other: &Self) -> (le: bool) {
        let (x, y) = (self.event, other.event);
        if x.target.0 != y.target.0 {
            x.target.0 < y.target.0
        } else if x.key.time_ns != y.key.time_ns {
            x.key.time_ns < y.key.time_ns
        } else if x.key.phase != y.key.phase {
            x.key.phase < y.key.phase
        } else if x.key.origin_node.0 != y.key.origin_node.0 {
            x.key.origin_node.0 < y.key.origin_node.0
        } else {
            x.key.origin_seq <= y.key.origin_seq
        }
    }

    proof fn lemma_total(a: Self, b: Self) {
    }

    proof fn lemma_transitive(a: Self, b: Self, c: Self) {
    }
}

// ---------------------------------------------------------------------------------------------
// The thirty-four byte key is the envelope order.
// ---------------------------------------------------------------------------------------------

/// The value of the first `n` bytes of `x`, least significant first.
pub open spec fn spec_bytes_value(x: u64, n: nat) -> int
    decreases n,
{
    if n == 0 {
        0
    } else {
        spec_bytes_value(x, (n - 1) as nat) + spec_byte(x, (n - 1) as u64) * spec_radix_power((n - 1) as nat)
    }
}

proof fn lemma_power_add(a: nat, b: nat)
    ensures
        spec_radix_power(a + b) == spec_radix_power(a) * spec_radix_power(b),
    decreases b,
{
    if b > 0 {
        lemma_power_add(a, (b - 1) as nat);
        let pa = spec_radix_power(a);
        let pb = spec_radix_power((b - 1) as nat);
        assert(spec_radix_power(a + b) == 256 * spec_radix_power((a + b - 1) as nat));
        assert(256 * (pa * pb) == pa * (256 * pb)) by (nonlinear_arith);
    }
}

proof fn lemma_powers()
    ensures
        spec_radix_power(1) == 0x100,
        spec_radix_power(2) == 0x1_0000,
        spec_radix_power(3) == 0x100_0000,
        spec_radix_power(4) == 0x1_0000_0000,
        spec_radix_power(5) == 0x100_0000_0000,
        spec_radix_power(6) == 0x1_0000_0000_0000,
        spec_radix_power(7) == 0x100_0000_0000_0000,
        spec_radix_power(8) == 0x1_0000_0000_0000_0000,
        spec_radix_power(16) == 0x1_0000_0000_0000_0000 * 0x1_0000_0000_0000_0000,
        spec_radix_power(18) == 0x1_0000_0000_0000_0000 * 0x1_0000_0000_0000_0000 * 0x1_0000,
        spec_radix_power(26) == 0x1_0000_0000_0000_0000 * 0x1_0000_0000_0000_0000 * 0x1_0000
            * 0x1_0000_0000_0000_0000,
{
    reveal_with_fuel(spec_radix_power, 9);
    lemma_power_add(8, 8);
    lemma_power_add(16, 2);
    lemma_power_add(18, 8);
}

proof fn lemma_bytes_value_u64(x: u64)
    ensures
        spec_bytes_value(x, 8) == x,
        x < 0x1_0000 ==> spec_bytes_value(x, 2) == x,
{
    lemma_powers();
    reveal_with_fuel(spec_bytes_value, 9);
    let b0 = spec_byte(x, 0);
    let b1 = spec_byte(x, 1);
    let b2 = spec_byte(x, 2);
    let b3 = spec_byte(x, 3);
    let b4 = spec_byte(x, 4);
    let b5 = spec_byte(x, 5);
    let b6 = spec_byte(x, 6);
    let b7 = spec_byte(x, 7);
    assert(b0 == (x >> 0u64) & 0xff && b1 == (x >> 8u64) & 0xff && b2 == (x >> 16u64) & 0xff && b3 == (x
        >> 24u64) & 0xff);
    assert(b4 == (x >> 32u64) & 0xff && b5 == (x >> 40u64) & 0xff && b6 == (x >> 48u64) & 0xff && b7 == (x
        >> 56u64) & 0xff);
    assert(x == ((x >> 0u64) & 0xff) + ((x >> 8u64) & 0xff) * 0x100 + ((x >> 16u64) & 0xff) * 0x1_0000 + ((
    x >> 24u64) & 0xff) * 0x100_0000 + ((x >> 32u64) & 0xff) * 0x1_0000_0000 + ((x >> 40u64) & 0xff)
        * 0x100_0000_0000 + ((x >> 48u64) & 0xff) * 0x1_0000_0000_0000 + ((x >> 56u64) & 0xff)
        * 0x100_0000_0000_0000) by (bit_vector);
    assert(x < 0x1_0000 ==> x == ((x >> 0u64) & 0xff) + ((x >> 8u64) & 0xff) * 0x100) by (bit_vector);
}

/// Bytes `offset .. offset + n` of the key are those of field `x`.
proof fn lemma_key_field(e: RemoteEnvelope, offset: nat, n: nat, x: u64)
    requires
        forall|q: int| 0 <= q < n ==> #[trigger] spec_digit(e, offset + q) == spec_byte(x, q as u64),
    ensures
        spec_partial_key(e, offset + n) == spec_partial_key(e, offset) + spec_radix_power(offset)
            * spec_bytes_value(x, n),
    decreases n,
{
    if n > 0 {
        let m = (n - 1) as nat;
        lemma_key_field(e, offset, m, x);
        lemma_power_add(offset, m);
        assert(spec_digit(e, offset + m as int) == spec_byte(x, m as u64));
        let po = spec_radix_power(offset);
        let pm = spec_radix_power(m);
        let digit = spec_byte(x, m as u64) as int;
        let rest = spec_bytes_value(x, m);
        assert(spec_partial_key(e, offset + n) == spec_partial_key(e, (offset + m) as nat) + digit
            * spec_radix_power((offset + m) as nat));
        assert(po * rest + digit * (po * pm) == po * (rest + digit * pm)) by (nonlinear_arith);
    }
}

/// The full key as a mixed-radix number of the envelope's fields.
proof fn lemma_full_key(e: RemoteEnvelope)
    ensures
        spec_partial_key(e, 34) == e.event.key.origin_seq + e.event.key.origin_node.0
            * 0x1_0000_0000_0000_0000 + (e.event.key.phase as int) * (0x1_0000_0000_0000_0000
            * 0x1_0000_0000_0000_0000) + e.event.key.time_ns * (0x1_0000_0000_0000_0000
            * 0x1_0000_0000_0000_0000 * 0x1_0000) + e.event.target.0 * (0x1_0000_0000_0000_0000
            * 0x1_0000_0000_0000_0000 * 0x1_0000 * 0x1_0000_0000_0000_0000),
{
    let k = e.event.key;
    lemma_powers();
    lemma_key_field(e, 0, 8, k.origin_seq);
    lemma_key_field(e, 8, 8, k.origin_node.0);
    lemma_key_field(e, 16, 2, k.phase as u64);
    lemma_key_field(e, 18, 8, k.time_ns);
    lemma_key_field(e, 26, 8, e.event.target.0);
    lemma_bytes_value_u64(k.origin_seq);
    lemma_bytes_value_u64(k.origin_node.0);
    lemma_bytes_value_u64(k.phase as u64);
    lemma_bytes_value_u64(k.time_ns);
    lemma_bytes_value_u64(e.event.target.0);
    assert(spec_partial_key(e, 0) == 0);
    assert(spec_partial_key(e, 8) == k.origin_seq);
    assert(spec_partial_key(e, 16) == k.origin_seq + spec_radix_power(8) * k.origin_node.0);
    assert(spec_partial_key(e, 18) == spec_partial_key(e, 16) + spec_radix_power(16) * (k.phase as int));
    assert(spec_partial_key(e, 26) == spec_partial_key(e, 18) + spec_radix_power(18) * k.time_ns);
    assert(spec_partial_key(e, 34) == spec_partial_key(e, 26) + spec_radix_power(26) * e.event.target.0);
}

proof fn lemma_mixed_radix(high_a: int, low_a: int, high_b: int, low_b: int, radix: int)
    requires
        0 <= low_a < radix,
        0 <= low_b < radix,
    ensures
        (high_a * radix + low_a <= high_b * radix + low_b) == (high_a < high_b || (high_a == high_b
            && low_a <= low_b)),
        (high_a * radix + low_a == high_b * radix + low_b) == (high_a == high_b && low_a == low_b),
{
    if high_a < high_b {
        assert(high_a * radix + low_a < high_b * radix + low_b) by (nonlinear_arith)
            requires
                high_a < high_b,
                0 <= low_a < radix,
                0 <= low_b,
        ;
    } else if high_a > high_b {
        assert(high_a * radix + low_a > high_b * radix + low_b) by (nonlinear_arith)
            requires
                high_a > high_b,
                0 <= low_b < radix,
                0 <= low_a,
        ;
    }
}

/// The envelope order is the order of the full key.
proof fn lemma_key_order(a: RemoteEnvelope, b: RemoteEnvelope)
    ensures
        spec_remote_le(a, b) == (spec_partial_key(a, 34) <= spec_partial_key(b, 34)),
{
    lemma_full_key(a);
    lemma_full_key(b);
    let w64: int = 0x1_0000_0000_0000_0000;
    let w128: int = w64 * w64;
    let w144: int = w128 * 0x1_0000;
    let w208: int = w144 * w64;
    let (x, y) = (a.event, b.event);
    let r1a = x.key.origin_node.0 * w64 + x.key.origin_seq;
    let r1b = y.key.origin_node.0 * w64 + y.key.origin_seq;
    let r2a = (x.key.phase as int) * w128 + r1a;
    let r2b = (y.key.phase as int) * w128 + r1b;
    let r3a = x.key.time_ns * w144 + r2a;
    let r3b = y.key.time_ns * w144 + r2b;
    assert(0 <= r1a < w128 && 0 <= r1b < w128) by (nonlinear_arith)
        requires
            r1a == x.key.origin_node.0 * w64 + x.key.origin_seq,
            r1b == y.key.origin_node.0 * w64 + y.key.origin_seq,
            w64 == 0x1_0000_0000_0000_0000,
            w128 == w64 * w64,
            0 <= x.key.origin_node.0 < w64,
            0 <= y.key.origin_node.0 < w64,
            0 <= x.key.origin_seq < w64,
            0 <= y.key.origin_seq < w64,
    ;
    assert(0 <= r2a < w144 && 0 <= r2b < w144) by (nonlinear_arith)
        requires
            r2a == (x.key.phase as int) * w128 + r1a,
            r2b == (y.key.phase as int) * w128 + r1b,
            w144 == w128 * 0x1_0000,
            0 <= r1a < w128,
            0 <= r1b < w128,
            0 <= x.key.phase < 0x1_0000,
            0 <= y.key.phase < 0x1_0000,
    ;
    assert(0 <= r3a < w208 && 0 <= r3b < w208) by (nonlinear_arith)
        requires
            r3a == x.key.time_ns * w144 + r2a,
            r3b == y.key.time_ns * w144 + r2b,
            w208 == w144 * w64,
            w64 == 0x1_0000_0000_0000_0000,
            0 <= r2a < w144,
            0 <= r2b < w144,
            0 <= x.key.time_ns < w64,
            0 <= y.key.time_ns < w64,
    ;
    assert(spec_partial_key(a, 34) == x.target.0 * w208 + r3a);
    assert(spec_partial_key(b, 34) == y.target.0 * w208 + r3b);
    lemma_mixed_radix(x.target.0 as int, r3a, y.target.0 as int, r3b, w208);
    lemma_mixed_radix(x.key.time_ns as int, r2a, y.key.time_ns as int, r2b, w144);
    lemma_mixed_radix(x.key.phase as int, r1a, y.key.phase as int, r1b, w128);
    lemma_mixed_radix(x.key.origin_node.0 as int, x.key.origin_seq as int, y.key.origin_node.0 as int, y.key.origin_seq as int, w64);
}

/// Selects the envelopes equivalent to `x` in the envelope order.
pub open spec fn spec_equivalent_to(x: RemoteEnvelope) -> spec_fn(RemoteEnvelope) -> bool {
    |y: RemoteEnvelope| crate::sort::spec_equivalent(y, x)
}

proof fn lemma_class_is_filter(s: Seq<RemoteEnvelope>, x: RemoteEnvelope)
    ensures
        spec_class(s, x) == spec_filter(s, spec_equivalent_to(x)),
    decreases s.len(),
{
    if s.len() > 0 {
        lemma_class_is_filter(s.drop_first(), x);
        let head = seq![s[0]];
        assert(s =~= head + s.drop_first());
        lemma_filter_concat(head, s.drop_first(), spec_equivalent_to(x));
        assert(head.drop_last() =~= Seq::<RemoteEnvelope>::empty());
        assert(head.last() == s[0]);
        assert(spec_filter(head.drop_last(), spec_equivalent_to(x)) == Seq::<RemoteEnvelope>::empty());
        assert(spec_equivalent_to(x)(s[0]) == crate::sort::spec_equivalent(s[0], x));
        if crate::sort::spec_equivalent(s[0], x) {
            assert(spec_filter(head, spec_equivalent_to(x)) =~= head);
            assert(spec_class(s, x) =~= head + spec_class(s.drop_first(), x));
        } else {
            assert(spec_filter(head, spec_equivalent_to(x)) =~= Seq::<RemoteEnvelope>::empty());
            assert(Seq::<RemoteEnvelope>::empty() + spec_class(s.drop_first(), x) =~= spec_class(s.drop_first(), x));
        }
    }
}

/// The stable sort by the whole key is the stable merge sort in the envelope order.
proof fn lemma_sorted_is_merge_sort(t: Seq<RemoteEnvelope>, s: Seq<RemoteEnvelope>)
    requires
        spec_sorted_through(t, s, 34),
    ensures
        t == spec_merge_sort(s),
{
    assert forall|i: int, j: int| 0 <= i < j < t.len() implies (#[trigger] t[i]).spec_le(#[trigger] t[j]) by {
        lemma_key_order(t[i], t[j]);
    }
    assert forall|x: RemoteEnvelope| #[trigger] spec_class(t, x) == spec_class(s, x) by {
        let k = spec_partial_key(x, 34);
        lemma_class_is_filter(t, x);
        lemma_class_is_filter(s, x);
        assert forall|i: int| 0 <= i < t.len() implies spec_equivalent_to(x)(#[trigger] t[i])
            == spec_key_is(34, k)(t[i]) by {
            lemma_key_order(t[i], x);
            lemma_key_order(x, t[i]);
        }
        assert forall|i: int| 0 <= i < s.len() implies spec_equivalent_to(x)(#[trigger] s[i])
            == spec_key_is(34, k)(s[i]) by {
            lemma_key_order(s[i], x);
            lemma_key_order(x, s[i]);
        }
        lemma_filter_pointwise(t, spec_equivalent_to(x), spec_key_is(34, k));
        lemma_filter_pointwise(s, spec_equivalent_to(x), spec_key_is(34, k));
        assert(spec_filter(t, spec_key_is(34, k)) == spec_filter(s, spec_key_is(34, k)));
    }
    law_merge_sort_is_stable_sort(s);
    let m = spec_merge_sort(s);
    assert forall|x: RemoteEnvelope| #[trigger] spec_class(t, x) == spec_class(m, x) by {
        assert(spec_class(t, x) == spec_class(s, x));
        assert(spec_class(m, x) == spec_class(s, x));
    }
    crate::sort::lemma_stable_sort_unique(t, m);
}

/// One radix pass: the envelopes partitioned by ordering byte `pass`, byte value by byte value,
/// each partition in input order.
fn radix_pass(events: &Vec<RemoteEnvelope>, pass: usize) -> (out: Vec<RemoteEnvelope>)
    ensures
        out@ == spec_buckets(events@, pass as nat, 256),
{
    let ghost p = pass as nat;
    let mut buckets: Vec<Vec<RemoteEnvelope>> = Vec::new();
    while buckets.len() < 256
        invariant
            buckets@.len() <= 256,
            forall|v: int| 0 <= v < buckets@.len() ==> (#[trigger] buckets@[v])@ == Seq::<RemoteEnvelope>::empty(),
        decreases 256 - buckets@.len(),
    {
        buckets.push(Vec::new());
    }
    proof {
        assert forall|v: int| 0 <= v < 256 implies (#[trigger] buckets@[v])@ == spec_filter(
            events@.take(0),
            spec_digit_is(p, v),
        ) by {
            assert(events@.take(0).len() == 0);
        }
    }
    let mut i: usize = 0;
    while i < events.len()
        invariant
            i <= events@.len(),
            p == pass as nat,
            buckets@.len() == 256,
            forall|v: int|
                0 <= v < 256 ==> (#[trigger] buckets@[v])@ == spec_filter(
                    events@.take(i as int),
                    spec_digit_is(p, v),
                ),
        decreases events@.len() - i,
    {
        let envelope = events[i];
        let byte = remote_order_byte(envelope.event, pass) as usize;
        proof {
            lemma_digit_range(envelope, pass as int);
        }
        buckets[byte].push(envelope);
        proof {
            assert(events@.take(i + 1) =~= events@.take(i as int).push(envelope));
            assert forall|v: int| 0 <= v < 256 implies (#[trigger] buckets@[v])@ == spec_filter(
                events@.take(i + 1),
                spec_digit_is(p, v),
            ) by {
                lemma_filter_push(events@.take(i as int), envelope, spec_digit_is(p, v));
            }
        }
        i = i + 1;
    }
    proof {
        assert(events@.take(events@.len() as int) =~= events@);
    }
    let mut out: Vec<RemoteEnvelope> = Vec::new();
    let mut v: usize = 0;
    while v < 256
        invariant
            v <= 256,
            p == pass as nat,
            buckets@.len() == 256,
            forall|w: int| 0 <= w < 256 ==> (#[trigger] buckets@[w])@ == spec_filter(events@, spec_digit_is(p, w)),
            out@ == spec_buckets(events@, p, v as int),
        decreases 256 - v,
    {
        let ghost before = out@;
        let mut k: usize = 0;
        while k < buckets[v].len()
            invariant
                v < 256,
                buckets@.len() == 256,
                k <= buckets@[v as int]@.len(),
                out@ == before + buckets@[v as int]@.take(k as int),
            decreases buckets@[v as int]@.len() - k,
        {
            out.push(buckets[v][k]);
            proof {
                assert(buckets@[v as int]@.take(k + 1) =~= buckets@[v as int]@.take(k as int).push(
                    buckets@[v as int]@[k as int],
                ));
                assert(out@ =~= before + buckets@[v as int]@.take(k + 1));
            }
            k = k + 1;
        }
        proof {
            assert(buckets@[v as int]@.take(k as int) =~= buckets@[v as int]@);
        }
        v = v + 1;
    }
    out
}

/// Puts an owner's remote envelopes in canonical order: ordered by target, time, phase, origin
/// node and origin sequence, with envelopes of equal key in their given order. A least
/// significant first radix sort over the thirty-four ordering-key bytes, skipping every byte that
/// is the same in all envelopes.
pub fn radix_sort_remote_envelopes(events: &mut Vec<RemoteEnvelope>)
    ensures
        final(events)@ == spec_merge_sort(old(events)@),
        spec_ordered(final(events)@),
        forall|x: RemoteEnvelope| #[trigger] spec_class(final(events)@, x) == spec_class(old(events)@, x),
{
    let ghost input = events@;
    proof {
        law_merge_sort_is_stable_sort(input);
    }
    if events.len() < 2 {
        proof {
            assert(spec_merge_sort(events@) == events@);
        }
        return;
    }
    let varying = remote_envelope_varying_bytes(events.as_slice());
    proof {
        assert forall|i: int, j: int| 0 <= i < j < events@.len() implies spec_partial_key(#[trigger] events@[i], 0)
            <= spec_partial_key(#[trigger] events@[j], 0) by {
        }
    }
    let mut pass: usize = 0;
    while pass < REMOTE_ORDER_BYTES
        invariant
            pass <= REMOTE_ORDER_BYTES,
            input.len() >= 1,
            forall|p: int|
                0 <= p < 64 ==> #[trigger] spec_bit(varying, p) == (p < REMOTE_ORDER_BYTES
                    && spec_pass_varies(input, input.len() as int, p)),
            spec_sorted_through(events@, input, pass as nat),
        decreases REMOTE_ORDER_BYTES - pass,
    {
        let bit = varying & (1u64 << (pass as u64));
        proof {
            let q = pass as u64;
            assert(q < 64);
            assert((varying & (1u64 << q) != 0) == ((varying >> q) & 1 == 1)) by (bit_vector)
                requires
                    q < 64,
            ;
            assert(spec_bit(varying, pass as int) == ((varying >> q) & 1 == 1));
        }
        if bit != 0 {
            let ghost current = events@;
            let sorted = radix_pass(events, pass);
            *events = sorted;
            proof {
                lemma_pass_sorts(current, input, pass as nat);
            }
        } else {
            proof {
                assert(!spec_pass_varies(input, input.len() as int, pass as int));
                let c = spec_digit(input[0], pass as int);
                assert forall|i: int| 0 <= i < input.len() implies spec_digit(#[trigger] input[i], pass as int)
                    == c by {
                    if spec_remote_order_byte(input[i].event, pass as int) != spec_remote_order_byte(
                        input[0].event,
                        pass as int,
                    ) {
                        assert(spec_pass_varies(input, input.len() as int, pass as int));
                    }
                }
                lemma_constant_pass(events@, input, pass as nat, c);
            }
        }
        pass = pass + 1;
    }
    proof {
        lemma_sorted_is_merge_sort(events@, input);
    }
}

} // verus!
