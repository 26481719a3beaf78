//! Canonical event records shared by every executor backend.

use vstd::prelude::*;

use crate::aqm_trace::{push_decimal, push_text, spec_decimal};

verus! {

/// Stable identifier for one logical process.
///
/// Hosts own one logical process. Each switch egress port owns a distinct logical process derived
/// from the semantic `(physical switch, directed egress link)` key.
#[derive(Clone, Copy, Debug, PartialEq, Eq, Hash, PartialOrd, Ord, Structural)]
pub struct NodeId(pub u64);

/// Stable identifier for a directed topology link.
#[derive(Clone, Copy, Debug, PartialEq, Eq, Hash, PartialOrd, Ord, Structural)]
pub struct LinkId(pub u64);

/// Stable identifier for one semantic traffic flow.
#[derive(Clone, Copy, Debug, PartialEq, Eq, Hash, PartialOrd, Ord, Structural)]
pub struct FlowId(pub u64);

/// Stable identifier for an event payload.
#[derive(Clone, Copy, Debug, PartialEq, Eq, Hash, PartialOrd, Ord, Structural)]
pub struct PayloadId(pub u64);

/// The packet identity that `PayloadId::from_node_sequence` allocates, when it fits in a `u64`.
pub open spec fn spec_payload_from_node_sequence(
    source: u64,
    node_count: u64,
    local_sequence: u64,
) -> Option<u64> {
    if local_sequence < u64::MAX && local_sequence * node_count + source <= u64::MAX {
        Some((local_sequence * node_count + source) as u64)
    } else {
        None
    }
}

impl PayloadId {
    /// Allocates a globally unique packet identity from one node's monotone local sequence.
    ///
    /// The final local sequence value is reserved so the owning state can always represent the
    /// next (possibly exhausted) cursor without a second flag.
    pub fn from_node_sequence(source: NodeId, node_count: u64, local_sequence: u64) -> (id:
        Option<PayloadId>)
        ensures
            id == (match spec_payload_from_node_sequence(source.0, node_count, local_sequence) {
                Some(value) => Some(PayloadId(value)),
                None => None,
            }),
    {
        if local_sequence == u64::MAX {
            return None;
        }
        match local_sequence.checked_mul(node_count) {
            None => {
                proof {
                    assert(local_sequence * node_count + source.0 > u64::MAX) by (nonlinear_arith)
                        requires
                            local_sequence * node_count > u64::MAX,
                    ;
                }
                None
            },
            Some(base) => match base.checked_add(source.0) {
                None => None,
                Some(value) => Some(PayloadId(value)),
            },
        }
    }
}

/// Identities allocated for two different (node, local sequence) pairs of nodes below the node
/// count differ, and one node's identities increase with its local sequence.
pub proof fn law_payload_identities_are_unique(
    a: NodeId,
    b: NodeId,
    node_count: u64,
    sequence_a: u64,
    sequence_b: u64,
)
    requires
        a.0 < node_count,
        b.0 < node_count,
        spec_payload_from_node_sequence(a.0, node_count, sequence_a) is Some,
        spec_payload_from_node_sequence(b.0, node_count, sequence_b) is Some,
    ensures
        (a != b || sequence_a != sequence_b) ==> spec_payload_from_node_sequence(
            a.0,
            node_count,
            sequence_a,
        ) != spec_payload_from_node_sequence(b.0, node_count, sequence_b),
        a == b && sequence_a < sequence_b ==> spec_payload_from_node_sequence(
            a.0,
            node_count,
            sequence_a,
        )->Some_0 < spec_payload_from_node_sequence(b.0, node_count, sequence_b)->Some_0,
{
    let x = sequence_a * node_count + a.0;
    let y = sequence_b * node_count + b.0;
    if sequence_a < sequence_b {
        assert(x < y) by (nonlinear_arith)
            requires
                sequence_a < sequence_b,
                a.0 < node_count,
                x == sequence_a * node_count + a.0,
                y == sequence_b * node_count + b.0,
        ;
    } else if sequence_b < sequence_a {
        assert(y < x) by (nonlinear_arith)
            requires
                sequence_b < sequence_a,
                b.0 < node_count,
                x == sequence_a * node_count + a.0,
                y == sequence_b * node_count + b.0,
        ;
    }
}

/// Total canonical ordering key for persistent events.
///
/// Ordering is lexicographic in declaration order: time, phase, origin node, origin sequence.
#[derive(Clone, Copy, Debug, PartialEq, Eq, Hash, PartialOrd, Ord, Structural)]
pub struct EventKey {
    pub time_ns: u64,
    pub phase: u16,
    pub origin_node: NodeId,
    pub origin_seq: u64,
}

/// The canonical strict order on event keys.
pub open spec fn key_lt(left: EventKey, right: EventKey) -> bool {
    ||| left.time_ns < right.time_ns
    ||| (left.time_ns == right.time_ns && left.phase < right.phase)
    ||| (left.time_ns == right.time_ns && left.phase == right.phase && left.origin_node.0
        < right.origin_node.0)
    ||| (left.time_ns == right.time_ns && left.phase == right.phase && left.origin_node.0
        == right.origin_node.0 && left.origin_seq < right.origin_seq)
}

/// The canonical key order is lexicographic in time, phase, origin node and origin sequence:
/// an earlier time runs first; at equal times a lower phase runs first; at equal times and
/// phases a lower origin node runs first; and only then a lower origin sequence. The order is
/// strict: no key precedes itself, and of two keys at most one precedes the other.
pub proof fn law_key_order_is_lexicographic(a: EventKey, b: EventKey)
    ensures
        a.time_ns < b.time_ns ==> key_lt(a, b),
        a.time_ns == b.time_ns && a.phase < b.phase ==> key_lt(a, b),
        a.time_ns == b.time_ns && a.phase == b.phase && a.origin_node.0 < b.origin_node.0 ==> key_lt(
            a,
            b,
        ),
        a.time_ns == b.time_ns && a.phase == b.phase && a.origin_node.0 == b.origin_node.0
            && a.origin_seq < b.origin_seq ==> key_lt(a, b),
        !key_lt(a, a),
        key_lt(a, b) ==> !key_lt(b, a),
        a != b ==> key_lt(a, b) || key_lt(b, a),
{
}

impl EventKey {
    /// Strict canonical comparison of two keys.
    pub fn precedes(&self, other: &EventKey) -> (less: bool)
        ensures
            less == key_lt(*self, *other),
    {
        if self.time_ns != other.time_ns {
            self.time_ns < other.time_ns
        } else if self.phase != other.phase {
            self.phase < other.phase
        } else if self.origin_node.0 != other.origin_node.0 {
            self.origin_node.0 < other.origin_node.0
        } else {
            self.origin_seq < other.origin_seq
        }
    }
}

/// Closed set of event transitions shared by the FIFO, SP, and WFQ models.
#[derive(Clone, Copy, Debug, PartialEq, Eq, Hash, PartialOrd, Ord, Structural)]
pub enum EventKind {
    /// A source generator transition makes a packet available at its host.
    PacketArrival,
    /// An egress link may select at most one queued packet for service.
    TxReady,
    /// A committed non-preemptive transmission finishes at its source.
    TxComplete,
    /// A transmitted packet reaches the route-selected target logical process.
    RemoteArrival,
    /// A source-owned TCP retransmission timer fires.
    RetransmissionTimeout,
    /// A source-owned exact rate pacing timer fires.
    PacingTimer,
}

/// The stable numeric code of each event kind, shared with device records.
pub open spec fn spec_event_kind_code(kind: EventKind) -> u64 {
    match kind {
        EventKind::PacketArrival => 0,
        EventKind::TxReady => 1,
        EventKind::TxComplete => 2,
        EventKind::RemoteArrival => 3,
        EventKind::RetransmissionTimeout => 4,
        EventKind::PacingTimer => 5,
    }
}

impl EventKind {
    /// The stable numeric code of this kind.
    pub fn code(self) -> (code: u64)
        ensures
            code == spec_event_kind_code(self),
    {
        match self {
            EventKind::PacketArrival => 0,
            EventKind::TxReady => 1,
            EventKind::TxComplete => 2,
            EventKind::RemoteArrival => 3,
            EventKind::RetransmissionTimeout => 4,
            EventKind::PacingTimer => 5,
        }
    }
}

/// Physical FEL class used by the stream decomposition.
#[derive(Clone, Copy, Debug, PartialEq, Eq, Structural)]
pub enum EventFelClass {
    Channel,
    Service,
    Generator,
    FallbackHeap,
}

pub open spec fn spec_event_fel_class(kind: EventKind) -> EventFelClass {
    match kind {
        EventKind::RemoteArrival => EventFelClass::Channel,
        EventKind::TxReady | EventKind::TxComplete => EventFelClass::Service,
        EventKind::PacketArrival => EventFelClass::Generator,
        EventKind::RetransmissionTimeout | EventKind::PacingTimer => EventFelClass::FallbackHeap,
    }
}

/// Classifies persistent events without backend-specific assumptions.
pub fn event_fel_class(kind: EventKind) -> (class: EventFelClass)
    ensures
        class == spec_event_fel_class(kind),
{
    match kind {
        EventKind::RemoteArrival => EventFelClass::Channel,
        EventKind::TxReady | EventKind::TxComplete => EventFelClass::Service,
        EventKind::PacketArrival => EventFelClass::Generator,
        EventKind::RetransmissionTimeout | EventKind::PacingTimer => EventFelClass::FallbackHeap,
    }
}

pub open spec fn spec_event_phase(kind: EventKind) -> u16 {
    match kind {
        EventKind::PacketArrival | EventKind::RemoteArrival => 0,
        EventKind::TxComplete | EventKind::RetransmissionTimeout | EventKind::PacingTimer => 1,
        EventKind::TxReady => 2,
    }
}

/// Returns the canonical equal-time phase for a closed event kind.
///
/// Arrivals are visible before a transmission completes, and completion is visible before the
/// next service selection. Time remains the primary ordering component.
pub fn event_phase(kind: EventKind) -> (phase: u16)
    ensures
        phase == spec_event_phase(kind),
{
    match kind {
        EventKind::PacketArrival | EventKind::RemoteArrival => 0,
        EventKind::TxComplete | EventKind::RetransmissionTimeout | EventKind::PacingTimer => 1,
        EventKind::TxReady => 2,
    }
}

/// Fixed-width persistent event record.
#[derive(Clone, Copy, Debug, PartialEq, Eq, Hash, Structural)]
pub struct Event {
    pub key: EventKey,
    pub target: NodeId,
    pub kind: EventKind,
    pub payload: PayloadId,
}

/// Whether a locally emitted child can execute directly after its completion parent.
pub open spec fn spec_is_same_time_tx_ready_continuation(
    parent: Event,
    child: Event,
    local_node: NodeId,
    next_key: Option<EventKey>,
) -> bool {
    &&& parent.kind == EventKind::TxComplete
    &&& child.target == local_node
    &&& child.kind == EventKind::TxReady
    &&& child.key.time_ns == parent.key.time_ns
    &&& child.key.phase == spec_event_phase(EventKind::TxReady)
    &&& match next_key {
        None => true,
        Some(next) => key_lt(child.key, next),
    }
}

/// Returns whether a locally emitted child can execute directly after its completion parent.
///
/// The strict comparison with the current LP minimum preserves both canonical ordering and the
/// existing duplicate-key diagnostic.
pub fn is_same_time_tx_ready_continuation(
    parent: Event,
    child: Event,
    local_node: NodeId,
    next_key: Option<EventKey>,
) -> (continues: bool)
    ensures
        continues == spec_is_same_time_tx_ready_continuation(parent, child, local_node, next_key),
{
    let next_ok = match next_key {
        None => true,
        Some(next) => child.key.precedes(&next),
    };
    parent.kind == EventKind::TxComplete && child.target == local_node && child.kind
        == EventKind::TxReady && child.key.time_ns == parent.key.time_ns && child.key.phase
        == event_phase(EventKind::TxReady) && next_ok
}

// Diagnostic text of identities and keys.

/// How an LP identity reads in a diagnostic.
pub open spec fn spec_node_text(node: NodeId) -> Seq<char> {
    "NodeId("@ + spec_decimal(node.0 as nat) + ")"@
}

/// How a payload identity reads in a diagnostic.
pub open spec fn spec_payload_text(payload: PayloadId) -> Seq<char> {
    "PayloadId("@ + spec_decimal(payload.0 as nat) + ")"@
}

/// How an event key reads in a diagnostic.
pub open spec fn spec_key_text(key: EventKey) -> Seq<char> {
    "EventKey { time_ns: "@ + spec_decimal(key.time_ns as nat) + ", phase: "@ + spec_decimal(
        key.phase as nat,
    ) + ", origin_node: NodeId("@ + spec_decimal(key.origin_node.0 as nat) + "), origin_seq: "@
        + spec_decimal(key.origin_seq as nat) + " }"@
}

pub(crate) fn push_node(out: &mut String, node: NodeId)
    ensures
        final(out)@ == old(out)@ + spec_node_text(node),
{
    push_text(out, "NodeId(");
    push_decimal(out, node.0);
    push_text(out, ")");
    assert(final(out)@ =~= old(out)@ + spec_node_text(node));
}

pub(crate) fn push_payload(out: &mut String, payload: PayloadId)
    ensures
        final(out)@ == old(out)@ + spec_payload_text(payload),
{
    push_text(out, "PayloadId(");
    push_decimal(out, payload.0);
    push_text(out, ")");
    assert(final(out)@ =~= old(out)@ + spec_payload_text(payload));
}

pub(crate) fn push_key(out: &mut String, key: EventKey)
    ensures
        final(out)@ == old(out)@ + spec_key_text(key),
{
    push_text(out, "EventKey { time_ns: ");
    push_decimal(out, key.time_ns);
    push_text(out, ", phase: ");
    push_decimal(out, key.phase as u64);
    push_text(out, ", origin_node: NodeId(");
    push_decimal(out, key.origin_node.0);
    push_text(out, "), origin_seq: ");
    push_decimal(out, key.origin_seq);
    push_text(out, " }");
    assert(final(out)@ =~= old(out)@ + spec_key_text(key));
}

} // verus!
