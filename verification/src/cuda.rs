//! Host side of the CUDA executor: the word codecs shared with the device kernels, the device
//! error decoder, capacity-retry configuration and the planned memory and phase accounting.
//!
//! The device writes fixed-width records of `u64` words. Everything here is a pure function of
//! those words or of the host-side plan, so it is checked without a device.

use vstd::prelude::*;
use crate::aqm_trace::{push_decimal, push_text, spec_decimal};
use crate::device_capacity::{
    raise_override_cap_or_floor, spec_raised_cap, umax, CapacityRetryRecord, DeviceCapacityCaps,
    DeviceCapacityFloors,
};
use crate::event::{push_node, spec_node_text, spec_event_kind_code, Event, EventKey, EventKind, FlowId, NodeId, PayloadId};
use crate::image::{
    spec_packet_kind_code, GeneratorStatus, PacketDescriptor, PacketKind, TcpAckHeader,
    TcpDataHeader,
};
use crate::model::{TcpCongestionControl, TcpCubic, TcpPhase, TcpReno};

verus! {

/// Words in one device event record.
pub const EVENT_WORDS: usize = 14;
/// Words of per-entity arena metadata: offset, capacity, head, count.
pub const ARENA_META_WORDS: usize = 4;
/// Observation metadata: one arena header per log (observed packets, departures, arrivals).
pub const OBSERVATION_META_WORDS: usize = 12;
/// Words of the device control block.
pub const CONTROL_WORDS: usize = 20;
pub const CONTROL_ERROR: usize = 0;
pub const CONTROL_ERROR_ARENA: usize = 1;
pub const CONTROL_ERROR_NODE: usize = 2;
pub const CONTROL_ERROR_CAPACITY: usize = 3;
pub const CONTROL_ERROR_DEMAND: usize = 19;
/// The device's "no entity" word.
pub const NONE: u64 = 0xffff_ffff_ffff_ffff;
/// Congestion-experienced flag in a packet kind word.
pub const PACKET_ECN_FLAG: u64 = 0x8000_0000_0000_0000;
/// Packet kind code bits of a packet kind word.
pub const PACKET_KIND_MASK: u64 = 0x7fff_ffff_ffff_ffff;
pub const DEFAULT_TRANSITIONS_PER_DISPATCH: usize = 4_096;
pub const DEFAULT_ROUND_THREADS_PER_BLOCK: usize = 256;
pub const DEFAULT_ATTEMPTS_PER_GRAPH_WAVE: usize = 64;
pub const MAX_ATTEMPTS_PER_GRAPH_WAVE: usize = 16_384;
pub const DEFAULT_MAX_CAPACITY_RETRIES: usize = 16;

/// Bounded device arena reported by a production CUDA capacity fault.
#[derive(Clone, Copy, Debug, PartialEq, Eq, Structural)]
pub enum CudaArena {
    Fel,
    ChannelInbox,
    ServiceStream,
    GeneratorStream,
    Queue,
    Outbox,
    Worklist,
    ObservedPackets,
    Departures,
    Arrivals,
    TcpReceiverRanges,
    TcpSegmentLedger,
    RemoteStaging,
}

impl CudaArena {
    /// Human-readable arena name used in capacity diagnostics.
    pub fn label(self) -> (label: &'static str)
        ensures
            label@ == (match self {
                CudaArena::Fel => "FEL"@,
                CudaArena::ChannelInbox => "channel inbox stream"@,
                CudaArena::ServiceStream => "service stream"@,
                CudaArena::GeneratorStream => "generator stream"@,
                CudaArena::Queue => "queue"@,
                CudaArena::Outbox => "remote outbox"@,
                CudaArena::Worklist => "active worklist"@,
                CudaArena::ObservedPackets => "observed-packet log"@,
                CudaArena::Departures => "departure log"@,
                CudaArena::Arrivals => "arrival log"@,
                CudaArena::TcpReceiverRanges => "TCP receiver range arena"@,
                CudaArena::TcpSegmentLedger => "TCP segment ledger"@,
                CudaArena::RemoteStaging => "per-LP remote staging"@,
            }),
    {
        match self {
            CudaArena::Fel => "FEL",
            CudaArena::ChannelInbox => "channel inbox stream",
            CudaArena::ServiceStream => "service stream",
            CudaArena::GeneratorStream => "generator stream",
            CudaArena::Queue => "queue",
            CudaArena::Outbox => "remote outbox",
            CudaArena::Worklist => "active worklist",
            CudaArena::ObservedPackets => "observed-packet log",
            CudaArena::Departures => "departure log",
            CudaArena::Arrivals => "arrival log",
            CudaArena::TcpReceiverRanges => "TCP receiver range arena",
            CudaArena::TcpSegmentLedger => "TCP segment ledger",
            CudaArena::RemoteStaging => "per-LP remote staging",
        }
    }
}

/// Production CUDA execution failure. No partial run result is returned.
#[derive(Debug, PartialEq, Eq)]
pub enum CudaError {
    Validation(String),
    Unavailable(String),
    CapacityExceeded {
        arena: CudaArena,
        node: Option<NodeId>,
        flow: Option<FlowId>,
        stream: Option<usize>,
        capacity: usize,
        demand: usize,
    },
    RetryFailed { error: Box<CudaError>, capacity_retry_trace: Vec<CapacityRetryRecord<CudaArena>> },
    TransitionLimitExceeded { node: NodeId, capacity: usize },
    RoundLimitExceeded { capacity: usize },
    WfqArithmeticOverflow { node: NodeId },
    DeviceExecution { code: u64, node: Option<NodeId> },
}

/// Where a capacity was exceeded: a stream, else a flow, else an LP, else nowhere named.
pub open spec fn spec_capacity_site_text(
    node: Option<NodeId>,
    flow: Option<FlowId>,
    stream: Option<usize>,
) -> Seq<char> {
    match (stream, flow, node) {
        (Some(stream), _, _) => " at stream "@ + spec_decimal(stream as nat),
        (None, Some(flow), _) => " at flow FlowId("@ + spec_decimal(flow.0 as nat) + ")"@,
        (None, None, Some(node)) => " at LP "@ + spec_node_text(node),
        (None, None, None) => Seq::empty(),
    }
}

/// The diagnostic message of a CUDA failure; a failed retry ends with its final error's.
pub open spec fn spec_error_text(error: CudaError) -> Seq<char>
    decreases error,
{
    match error {
        CudaError::Validation(message) => "invalid CUDA image: "@ + message@,
        CudaError::Unavailable(message) => "CUDA backend unavailable: "@ + message@,
        CudaError::CapacityExceeded { arena, node, flow, stream, capacity, demand } => "CUDA "@
            + spec_arena_label(arena) + " capacity of "@ + spec_decimal(capacity as nat)
            + " records exceeded"@ + spec_capacity_site_text(node, flow, stream)
            + "; observed demand "@ + spec_decimal(demand as nat),
        CudaError::RetryFailed { error, capacity_retry_trace } => "CUDA execution failed after "@
            + spec_decimal(capacity_retry_trace@.len()) + " capacity retries: "@
            + spec_error_text(*error),
        CudaError::TransitionLimitExceeded { node, capacity } => "CUDA LP "@ + spec_node_text(node)
            + " exceeded the per-round transition continuation capacity of "@ + spec_decimal(
            capacity as nat,
        ),
        CudaError::RoundLimitExceeded { capacity } => "CUDA bounded graph waves exhausted their capacity of "@
            + spec_decimal(capacity as nat) + " rounds before termination"@,
        CudaError::WfqArithmeticOverflow { node } => "CUDA WFQ arithmetic at LP "@ + spec_node_text(
            node,
        ) + " exceeds the exact 320-bit device limit; use Scalar or Cpu for this image"@,
        CudaError::DeviceExecution { code, node } => "CUDA transition kernel reported semantic error "@
            + spec_decimal(code as nat) + match node {
            Some(node) => " at LP "@ + spec_node_text(node),
            None => Seq::empty(),
        },
    }
}

/// The label `CudaArena::label` gives an arena.
pub open spec fn spec_arena_label(arena: CudaArena) -> Seq<char> {
    match arena {
        CudaArena::Fel => "FEL"@,
        CudaArena::ChannelInbox => "channel inbox stream"@,
        CudaArena::ServiceStream => "service stream"@,
        CudaArena::GeneratorStream => "generator stream"@,
        CudaArena::Queue => "queue"@,
        CudaArena::Outbox => "remote outbox"@,
        CudaArena::Worklist => "active worklist"@,
        CudaArena::ObservedPackets => "observed-packet log"@,
        CudaArena::Departures => "departure log"@,
        CudaArena::Arrivals => "arrival log"@,
        CudaArena::TcpReceiverRanges => "TCP receiver range arena"@,
        CudaArena::TcpSegmentLedger => "TCP segment ledger"@,
        CudaArena::RemoteStaging => "per-LP remote staging"@,
    }
}

impl CudaError {
    /// The diagnostic message of the failure.
    pub fn message(&self) -> (text: String)
        ensures
            text@ == spec_error_text(*self),
        decreases *self,
    {
        let mut text = String::new();
        match self {
            CudaError::Validation(message) => {
                push_text(&mut text, "invalid CUDA image: ");
                push_text(&mut text, message.as_str());
            },
            CudaError::Unavailable(message) => {
                push_text(&mut text, "CUDA backend unavailable: ");
                push_text(&mut text, message.as_str());
            },
            CudaError::CapacityExceeded { arena, node, flow, stream, capacity, demand } => {
                push_text(&mut text, "CUDA ");
                push_text(&mut text, arena.label());
                push_text(&mut text, " capacity of ");
                push_decimal(&mut text, *capacity as u64);
                push_text(&mut text, " records exceeded");
                let ghost before = text@;
                match (stream, flow, node) {
                    (Some(stream), _, _) => {
                        push_text(&mut text, " at stream ");
                        push_decimal(&mut text, *stream as u64);
                    },
                    (None, Some(flow), _) => {
                        push_text(&mut text, " at flow FlowId(");
                        push_decimal(&mut text, flow.0);
                        push_text(&mut text, ")");
                    },
                    (None, None, Some(node)) => {
                        push_text(&mut text, " at LP ");
                        push_node(&mut text, *node);
                    },
                    (None, None, None) => {},
                }
                assert(text@ =~= before + spec_capacity_site_text(*node, *flow, *stream));
                push_text(&mut text, "; observed demand ");
                push_decimal(&mut text, *demand as u64);
            },
            CudaError::RetryFailed { error, capacity_retry_trace } => {
                push_text(&mut text, "CUDA execution failed after ");
                push_decimal(&mut text, capacity_retry_trace.len() as u64);
                push_text(&mut text, " capacity retries: ");
                let inner = error.message();
                push_text(&mut text, inner.as_str());
            },
            CudaError::TransitionLimitExceeded { node, capacity } => {
                push_text(&mut text, "CUDA LP ");
                push_node(&mut text, *node);
                push_text(&mut text, " exceeded the per-round transition continuation capacity of ");
                push_decimal(&mut text, *capacity as u64);
            },
            CudaError::RoundLimitExceeded { capacity } => {
                push_text(&mut text, "CUDA bounded graph waves exhausted their capacity of ");
                push_decimal(&mut text, *capacity as u64);
                push_text(&mut text, " rounds before termination");
            },
            CudaError::WfqArithmeticOverflow { node } => {
                push_text(&mut text, "CUDA WFQ arithmetic at LP ");
                push_node(&mut text, *node);
                push_text(
                    &mut text,
                    " exceeds the exact 320-bit device limit; use Scalar or Cpu for this image",
                );
            },
            CudaError::DeviceExecution { code, node } => {
                push_text(&mut text, "CUDA transition kernel reported semantic error ");
                push_decimal(&mut text, *code);
                match node {
                    Some(node) => {
                        push_text(&mut text, " at LP ");
                        push_node(&mut text, *node);
                    },
                    None => {},
                }
            },
        }
        assert(text@ =~= spec_error_text(*self));
        text
    }
}

impl CudaError {
    /// Wraps a terminal failure with the capacity retries that preceded it; a failure with no
    /// retries is returned unchanged.
    pub fn with_retry_trace(self, capacity_retry_trace: &[CapacityRetryRecord<CudaArena>]) -> (error:
        CudaError)
        ensures
            capacity_retry_trace@.len() == 0 ==> error == self,
            capacity_retry_trace@.len() > 0 ==> (error matches CudaError::RetryFailed {
                error: inner,
                capacity_retry_trace: trace,
            } && *inner == self && trace@ == capacity_retry_trace@),
    {
        if capacity_retry_trace.len() == 0 {
            self
        } else {
            CudaError::RetryFailed {
                error: Box::new(self),
                capacity_retry_trace: vstd::slice::slice_to_vec(capacity_retry_trace),
            }
        }
    }
}

/// The arena a device arena code names; unknown codes name the FEL.
pub open spec fn spec_decode_arena(value: u64) -> CudaArena {
    if value == 2 {
        CudaArena::Queue
    } else if value == 3 {
        CudaArena::Outbox
    } else if value == 4 {
        CudaArena::Worklist
    } else if value == 5 {
        CudaArena::ObservedPackets
    } else if value == 6 {
        CudaArena::Departures
    } else if value == 7 {
        CudaArena::Arrivals
    } else if value == 8 {
        CudaArena::ChannelInbox
    } else if value == 9 {
        CudaArena::ServiceStream
    } else if value == 10 {
        CudaArena::GeneratorStream
    } else if value == 11 {
        CudaArena::TcpReceiverRanges
    } else if value == 12 {
        CudaArena::TcpSegmentLedger
    } else if value == 13 {
        CudaArena::RemoteStaging
    } else {
        CudaArena::Fel
    }
}

pub fn decode_arena(value: u64) -> (arena: CudaArena)
    ensures
        arena == spec_decode_arena(value),
{
    match value {
        1 => CudaArena::Fel,
        2 => CudaArena::Queue,
        3 => CudaArena::Outbox,
        4 => CudaArena::Worklist,
        5 => CudaArena::ObservedPackets,
        6 => CudaArena::Departures,
        7 => CudaArena::Arrivals,
        8 => CudaArena::ChannelInbox,
        9 => CudaArena::ServiceStream,
        10 => CudaArena::GeneratorStream,
        11 => CudaArena::TcpReceiverRanges,
        12 => CudaArena::TcpSegmentLedger,
        13 => CudaArena::RemoteStaging,
        _ => CudaArena::Fel,
    }
}

/// The failure a device control block reports.
///
/// Code 1 is a capacity fault whose identity word names a flow for the TCP arenas, a stream for
/// the channel inbox and an LP otherwise; code 2 exceeds the per-round transition continuation;
/// code 100 is WFQ arithmetic overflow; the channel-order diagnostic 142 shares the channel
/// identity slot and so names no LP; every other code is a semantic error at the identity LP.
pub open spec fn spec_decode_device_error(control: Seq<u64>) -> CudaError {
    let raw = control[CONTROL_ERROR_NODE as int];
    let present = raw != NONE;
    let capacity = control[CONTROL_ERROR_CAPACITY as int] as usize;
    let demand = control[CONTROL_ERROR_DEMAND as int] as usize;
    let code = control[CONTROL_ERROR as int];
    if code == 1 {
        let arena = spec_decode_arena(control[CONTROL_ERROR_ARENA as int]);
        let tcp = arena == CudaArena::TcpReceiverRanges || arena == CudaArena::TcpSegmentLedger;
        let channel = arena == CudaArena::ChannelInbox;
        CudaError::CapacityExceeded {
            arena,
            node: if present && !tcp && !channel {
                Some(NodeId(raw))
            } else {
                None
            },
            flow: if present && tcp {
                Some(FlowId(raw))
            } else {
                None
            },
            stream: if present && channel {
                Some(raw as usize)
            } else {
                None
            },
            capacity,
            demand,
        }
    } else if code == 2 {
        CudaError::TransitionLimitExceeded {
            node: if present {
                NodeId(raw)
            } else {
                NodeId(0)
            },
            capacity,
        }
    } else if code == 100 {
        CudaError::WfqArithmeticOverflow {
            node: if present {
                NodeId(raw)
            } else {
                NodeId(0)
            },
        }
    } else if code == 142 {
        CudaError::DeviceExecution { code: 142, node: None }
    } else {
        CudaError::DeviceExecution {
            code,
            node: if present {
                Some(NodeId(raw))
            } else {
                None
            },
        }
    }
}

/// Decodes the failure a device control block reports.
pub fn decode_device_error(control: &[u64]) -> (error: CudaError)
    requires
        control@.len() >= CONTROL_WORDS,
    ensures
        error == spec_decode_device_error(control@),
{
    let raw = control[CONTROL_ERROR_NODE];
    let present = raw != NONE;
    let capacity = control[CONTROL_ERROR_CAPACITY] as usize;
    let demand = control[CONTROL_ERROR_DEMAND] as usize;
    match control[CONTROL_ERROR] {
        1 => {
            let arena = decode_arena(control[CONTROL_ERROR_ARENA]);
            let tcp = arena == CudaArena::TcpReceiverRanges || arena == CudaArena::TcpSegmentLedger;
            let channel = arena == CudaArena::ChannelInbox;
            CudaError::CapacityExceeded {
                arena,
                node: if present && !tcp && !channel {
                    Some(NodeId(raw))
                } else {
                    None
                },
                flow: if present && tcp {
                    Some(FlowId(raw))
                } else {
                    None
                },
                stream: if present && channel {
                    Some(raw as usize)
                } else {
                    None
                },
                capacity,
                demand,
            }
        },
        2 => CudaError::TransitionLimitExceeded {
            node: if present {
                NodeId(raw)
            } else {
                NodeId(0)
            },
            capacity,
        },
        100 => CudaError::WfqArithmeticOverflow {
            node: if present {
                NodeId(raw)
            } else {
                NodeId(0)
            },
        },
        142 => CudaError::DeviceExecution { code: 142, node: None },
        code => CudaError::DeviceExecution {
            code,
            node: if present {
                Some(NodeId(raw))
            } else {
                None
            },
        },
    }
}

// ---------------------------------------------------------------------------------------------
// Device record codecs.
// ---------------------------------------------------------------------------------------------

/// A semantic error the device reports with no LP identity.
pub open spec fn spec_device_fault(code: u64) -> CudaError {
    CudaError::DeviceExecution { code, node: None }
}

pub open spec fn spec_decode_event_kind(value: u64) -> Result<EventKind, CudaError> {
    if value == 0 {
        Ok(EventKind::PacketArrival)
    } else if value == 1 {
        Ok(EventKind::TxReady)
    } else if value == 2 {
        Ok(EventKind::TxComplete)
    } else if value == 3 {
        Ok(EventKind::RemoteArrival)
    } else if value == 4 {
        Ok(EventKind::RetransmissionTimeout)
    } else if value == 5 {
        Ok(EventKind::PacingTimer)
    } else {
        Err(spec_device_fault(92))
    }
}

pub fn decode_event_kind(value: u64) -> (kind: Result<EventKind, CudaError>)
    ensures
        kind == spec_decode_event_kind(value),
{
    match value {
        0 => Ok(EventKind::PacketArrival),
        1 => Ok(EventKind::TxReady),
        2 => Ok(EventKind::TxComplete),
        3 => Ok(EventKind::RemoteArrival),
        4 => Ok(EventKind::RetransmissionTimeout),
        5 => Ok(EventKind::PacingTimer),
        _ => Err(CudaError::DeviceExecution { code: 92, node: None }),
    }
}

/// Packet kind of a kind word, ignoring its congestion-experienced flag, with the kind's three
/// metadata words.
pub open spec fn spec_decode_packet_kind(value: u64, metadata: Seq<u64>) -> Result<PacketKind, CudaError> {
    let code = value & PACKET_KIND_MASK;
    if code == 0 {
        Ok(PacketKind::Data)
    } else if code == 1 {
        Ok(PacketKind::Feedback)
    } else if code == 2 {
        Ok(
            PacketKind::TcpData(
                TcpDataHeader {
                    sequence: metadata[0],
                    sent_time_ns: metadata[1],
                    retransmission: metadata[2] != 0,
                },
            ),
        )
    } else if code == 3 {
        Ok(
            PacketKind::TcpAck(
                TcpAckHeader {
                    acknowledgment: metadata[0],
                    acknowledged_bytes: metadata[1],
                    echoed_sent_time_ns: metadata[2],
                },
            ),
        )
    } else {
        Err(spec_device_fault(93))
    }
}

pub fn decode_packet_kind(value: u64, metadata: [u64; 3]) -> (kind: Result<PacketKind, CudaError>)
    ensures
        kind == spec_decode_packet_kind(value, metadata@),
{
    match value & PACKET_KIND_MASK {
        0 => Ok(PacketKind::Data),
        1 => Ok(PacketKind::Feedback),
        2 => Ok(
            PacketKind::TcpData(
                TcpDataHeader {
                    sequence: metadata[0],
                    sent_time_ns: metadata[1],
                    retransmission: metadata[2] != 0,
                },
            ),
        ),
        3 => Ok(
            PacketKind::TcpAck(
                TcpAckHeader {
                    acknowledgment: metadata[0],
                    acknowledged_bytes: metadata[1],
                    echoed_sent_time_ns: metadata[2],
                },
            ),
        ),
        _ => Err(CudaError::DeviceExecution { code: 93, node: None }),
    }
}

pub open spec fn spec_decode_generator_status(value: u64) -> Result<GeneratorStatus, CudaError> {
    if value == 0 {
        Ok(GeneratorStatus::Scheduled)
    } else if value == 1 {
        Ok(GeneratorStatus::Blocked)
    } else if value == 2 {
        Ok(GeneratorStatus::Finished)
    } else if value == 3 {
        Ok(GeneratorStatus::Stopped)
    } else {
        Err(spec_device_fault(94))
    }
}

pub fn decode_generator_status(value: u64) -> (status: Result<GeneratorStatus, CudaError>)
    ensures
        status == spec_decode_generator_status(value),
{
    match value {
        0 => Ok(GeneratorStatus::Scheduled),
        1 => Ok(GeneratorStatus::Blocked),
        2 => Ok(GeneratorStatus::Finished),
        3 => Ok(GeneratorStatus::Stopped),
        _ => Err(CudaError::DeviceExecution { code: 94, node: None }),
    }
}

pub open spec fn spec_decode_tcp_phase(value: u64) -> Result<TcpPhase, CudaError> {
    if value == 0 {
        Ok(TcpPhase::SlowStart)
    } else if value == 1 {
        Ok(TcpPhase::CongestionAvoidance)
    } else if value == 2 {
        Ok(TcpPhase::FastRecovery)
    } else {
        Err(spec_device_fault(96))
    }
}

pub fn decode_tcp_phase(value: u64) -> (phase: Result<TcpPhase, CudaError>)
    ensures
        phase == spec_decode_tcp_phase(value),
{
    match value {
        0 => Ok(TcpPhase::SlowStart),
        1 => Ok(TcpPhase::CongestionAvoidance),
        2 => Ok(TcpPhase::FastRecovery),
        _ => Err(CudaError::DeviceExecution { code: 96, node: None }),
    }
}

/// TCP congestion controller of a controller record: word 0 selects Reno or CUBIC, word 4 is the
/// phase, and the remaining words are the controller's fields in declaration order.
pub open spec fn spec_decode_control(words: Seq<u64>) -> Result<TcpCongestionControl, CudaError> {
    if words[0] == 0 {
        match spec_decode_tcp_phase(words[4]) {
            Ok(phase) => Ok(
                TcpCongestionControl::Reno(
                    TcpReno {
                        mss_bytes: words[1],
                        cwnd_bytes: words[2],
                        ssthresh_bytes: words[3],
                        phase,
                        duplicate_acks: words[5],
                        recovery_high_sequence: words[6],
                        ca_credit: words[7],
                    },
                ),
            ),
            Err(error) => Err(error),
        }
    } else if words[0] == 1 {
        match spec_decode_tcp_phase(words[4]) {
            Ok(phase) => Ok(
                TcpCongestionControl::Cubic(
                    TcpCubic {
                        mss_bytes: words[1],
                        cwnd_scaled: words[2],
                        ssthresh_scaled: words[3],
                        phase,
                        duplicate_acks: words[5],
                        recovery_high_sequence: words[6],
                        w_max_scaled: words[7],
                        w_last_max_scaled: words[8],
                        epoch_start_ns: words[9],
                        srtt_ns: words[10],
                        k_ns: words[11],
                    },
                ),
            ),
            Err(error) => Err(error),
        }
    } else {
        Err(spec_device_fault(97))
    }
}

pub fn decode_control(words: &[u64]) -> (control: Result<TcpCongestionControl, CudaError>)
    requires
        words@.len() >= 1,
        words@[0] == 0 ==> words@.len() >= 8,
        words@[0] == 1 ==> words@.len() >= 12,
    ensures
        control == spec_decode_control(words@),
{
    match words[0] {
        0 => {
            let phase = match decode_tcp_phase(words[4]) {
                Ok(phase) => phase,
                Err(error) => {
                    return Err(error);
                },
            };
            Ok(
                TcpCongestionControl::Reno(
                    TcpReno {
                        mss_bytes: words[1],
                        cwnd_bytes: words[2],
                        ssthresh_bytes: words[3],
                        phase,
                        duplicate_acks: words[5],
                        recovery_high_sequence: words[6],
                        ca_credit: words[7],
                    },
                ),
            )
        },
        1 => {
            let phase = match decode_tcp_phase(words[4]) {
                Ok(phase) => phase,
                Err(error) => {
                    return Err(error);
                },
            };
            Ok(
                TcpCongestionControl::Cubic(
                    TcpCubic {
                        mss_bytes: words[1],
                        cwnd_scaled: words[2],
                        ssthresh_scaled: words[3],
                        phase,
                        duplicate_acks: words[5],
                        recovery_high_sequence: words[6],
                        w_max_scaled: words[7],
                        w_last_max_scaled: words[8],
                        epoch_start_ns: words[9],
                        srtt_ns: words[10],
                        k_ns: words[11],
                    },
                ),
            )
        },
        _ => Err(CudaError::DeviceExecution { code: 97, node: None }),
    }
}

/// Stable numeric code of a TCP phase.
pub open spec fn spec_tcp_phase_code(phase: TcpPhase) -> u64 {
    match phase {
        TcpPhase::SlowStart => 0,
        TcpPhase::CongestionAvoidance => 1,
        TcpPhase::FastRecovery => 2,
    }
}

fn tcp_phase_code(phase: TcpPhase) -> (code: u64)
    ensures
        code == spec_tcp_phase_code(phase),
{
    match phase {
        TcpPhase::SlowStart => 0,
        TcpPhase::CongestionAvoidance => 1,
        TcpPhase::FastRecovery => 2,
    }
}

/// Word `index` of a controller record: word 0 selects Reno or CUBIC, word 4 holds the phase,
/// the controller's other fields follow in declaration order, and every other word is zero.
pub open spec fn spec_control_word(control: TcpCongestionControl, index: int) -> u64 {
    match control {
        TcpCongestionControl::Reno(state) => if index == 1 {
            state.mss_bytes
        } else if index == 2 {
            state.cwnd_bytes
        } else if index == 3 {
            state.ssthresh_bytes
        } else if index == 4 {
            spec_tcp_phase_code(state.phase)
        } else if index == 5 {
            state.duplicate_acks
        } else if index == 6 {
            state.recovery_high_sequence
        } else if index == 7 {
            state.ca_credit
        } else {
            0
        },
        TcpCongestionControl::Cubic(state) => if index == 0 {
            1
        } else if index == 1 {
            state.mss_bytes
        } else if index == 2 {
            state.cwnd_scaled
        } else if index == 3 {
            state.ssthresh_scaled
        } else if index == 4 {
            spec_tcp_phase_code(state.phase)
        } else if index == 5 {
            state.duplicate_acks
        } else if index == 6 {
            state.recovery_high_sequence
        } else if index == 7 {
            state.w_max_scaled
        } else if index == 8 {
            state.w_last_max_scaled
        } else if index == 9 {
            state.epoch_start_ns
        } else if index == 10 {
            state.srtt_ns
        } else if index == 11 {
            state.k_ns
        } else {
            0
        },
    }
}

/// Words a controller record needs: eight for Reno, twelve for CUBIC.
pub open spec fn spec_control_width(control: TcpCongestionControl) -> nat {
    match control {
        TcpCongestionControl::Reno(_) => 8,
        TcpCongestionControl::Cubic(_) => 12,
    }
}

/// Writes a TCP congestion controller into its record, clearing every other word.
pub fn encode_control(control: TcpCongestionControl, words: &mut [u64])
    requires
        old(words)@.len() >= spec_control_width(control),
    ensures
        final(words)@.len() == old(words)@.len(),
        forall|index: int|
            0 <= index < final(words)@.len() ==> #[trigger] final(words)@[index]
                == spec_control_word(control, index),
{
    let mut index: usize = 0;
    while index < words.len()
        invariant
            index <= words@.len(),
            words@.len() == old(words)@.len(),
            forall|i: int| 0 <= i < index ==> #[trigger] words@[i] == 0,
        decreases words@.len() - index,
    {
        words[index] = 0;
        index += 1;
    }
    match control {
        TcpCongestionControl::Reno(state) => {
            words[0] = 0;
            words[1] = state.mss_bytes;
            words[2] = state.cwnd_bytes;
            words[3] = state.ssthresh_bytes;
            words[4] = tcp_phase_code(state.phase);
            words[5] = state.duplicate_acks;
            words[6] = state.recovery_high_sequence;
            words[7] = state.ca_credit;
        },
        TcpCongestionControl::Cubic(state) => {
            words[0] = 1;
            words[1] = state.mss_bytes;
            words[2] = state.cwnd_scaled;
            words[3] = state.ssthresh_scaled;
            words[4] = tcp_phase_code(state.phase);
            words[5] = state.duplicate_acks;
            words[6] = state.recovery_high_sequence;
            words[7] = state.w_max_scaled;
            words[8] = state.w_last_max_scaled;
            words[9] = state.epoch_start_ns;
            words[10] = state.srtt_ns;
            words[11] = state.k_ns;
        },
    }
}

/// Decoding an encoded controller record gives back the controller.
pub proof fn law_control_record_round_trip(control: TcpCongestionControl, words: Seq<u64>)
    requires
        words.len() >= spec_control_width(control),
        forall|index: int| 0 <= index < words.len() ==> #[trigger] words[index] == spec_control_word(
            control,
            index,
        ),
    ensures
        spec_decode_control(words) == Ok::<TcpCongestionControl, CudaError>(control),
{
    assert(words[0] == spec_control_word(control, 0));
    assert(words[1] == spec_control_word(control, 1));
    assert(words[2] == spec_control_word(control, 2));
    assert(words[3] == spec_control_word(control, 3));
    assert(words[4] == spec_control_word(control, 4));
    assert(words[5] == spec_control_word(control, 5));
    assert(words[6] == spec_control_word(control, 6));
    assert(words[7] == spec_control_word(control, 7));
    if control is Cubic {
        assert(words[8] == spec_control_word(control, 8));
        assert(words[9] == spec_control_word(control, 9));
        assert(words[10] == spec_control_word(control, 10));
        assert(words[11] == spec_control_word(control, 11));
    }
}

/// Packet of a seven-word packet record: id, flow, size, kind word, three metadata words.
pub open spec fn spec_decode_packet_fields(words: Seq<u64>) -> Result<PacketDescriptor, CudaError> {
    match spec_decode_packet_kind(words[3], words.subrange(4, 7)) {
        Ok(kind) => Ok(
            PacketDescriptor {
                id: PayloadId(words[0]),
                flow: FlowId(words[1]),
                size_bytes: words[2],
                ecn_marked: words[3] & PACKET_ECN_FLAG != 0,
                kind,
            },
        ),
        Err(error) => Err(error),
    }
}

pub fn decode_packet_fields(words: &[u64]) -> (packet: Result<PacketDescriptor, CudaError>)
    requires
        words@.len() >= 7,
    ensures
        packet == spec_decode_packet_fields(words@),
{
    let metadata = [words[4], words[5], words[6]];
    assert(metadata@ =~= words@.subrange(4, 7));
    let kind = match decode_packet_kind(words[3], metadata) {
        Ok(kind) => kind,
        Err(error) => {
            return Err(error);
        },
    };
    Ok(
        PacketDescriptor {
            id: PayloadId(words[0]),
            flow: FlowId(words[1]),
            size_bytes: words[2],
            ecn_marked: words[3] & PACKET_ECN_FLAG != 0,
            kind,
        },
    )
}

/// Event key of its four words; a phase word past `u16` is a device fault.
pub open spec fn spec_decode_key(words: Seq<u64>) -> Result<EventKey, CudaError> {
    if words[1] > u16::MAX {
        Err(spec_device_fault(91))
    } else {
        Ok(
            EventKey {
                time_ns: words[0],
                phase: words[1] as u16,
                origin_node: NodeId(words[2]),
                origin_seq: words[3],
            },
        )
    }
}

pub fn decode_key(words: &[u64]) -> (key: Result<EventKey, CudaError>)
    requires
        words@.len() >= 4,
    ensures
        key == spec_decode_key(words@),
{
    if words[1] > u16::MAX as u64 {
        return Err(CudaError::DeviceExecution { code: 91, node: None });
    }
    Ok(
        EventKey {
            time_ns: words[0],
            phase: words[1] as u16,
            origin_node: NodeId(words[2]),
            origin_seq: words[3],
        },
    )
}

/// Event and packet of a fourteen-word event record: key (four words), target, kind, payload,
/// then the seven-word packet record. The kind is checked first, then the packet, then the phase.
pub open spec fn spec_decode_event(record: Seq<u64>) -> Result<(Event, PacketDescriptor), CudaError> {
    match spec_decode_event_kind(record[5]) {
        Err(error) => Err(error),
        Ok(kind) => match spec_decode_packet_fields(record.subrange(7, 14)) {
            Err(error) => Err(error),
            Ok(packet) => if record[1] > u16::MAX {
                Err(spec_device_fault(90))
            } else {
                Ok(
                    (
                        Event {
                            key: EventKey {
                                time_ns: record[0],
                                phase: record[1] as u16,
                                origin_node: NodeId(record[2]),
                                origin_seq: record[3],
                            },
                            target: NodeId(record[4]),
                            kind,
                            payload: PayloadId(record[6]),
                        },
                        packet,
                    ),
                )
            },
        },
    }
}

pub fn decode_event(record: &[u64]) -> (decoded: Result<(Event, PacketDescriptor), CudaError>)
    requires
        record@.len() >= EVENT_WORDS,
    ensures
        decoded == spec_decode_event(record@),
{
    let kind = match decode_event_kind(record[5]) {
        Ok(kind) => kind,
        Err(error) => {
            return Err(error);
        },
    };
    let packet = match decode_packet_fields(vstd::slice::slice_subrange(record, 7, 14)) {
        Ok(packet) => packet,
        Err(error) => {
            return Err(error);
        },
    };
    if record[1] > u16::MAX as u64 {
        return Err(CudaError::DeviceExecution { code: 90, node: None });
    }
    Ok(
        (
            Event {
                key: EventKey {
                    time_ns: record[0],
                    phase: record[1] as u16,
                    origin_node: NodeId(record[2]),
                    origin_seq: record[3],
                },
                target: NodeId(record[4]),
                kind,
                payload: PayloadId(record[6]),
            },
            packet,
        ),
    )
}

/// The three metadata words of a packet kind.
pub open spec fn spec_packet_metadata(kind: PacketKind) -> Seq<u64> {
    match kind {
        PacketKind::Data => seq![0u64, 0u64, 0u64],
        PacketKind::Feedback => seq![0u64, 0u64, 0u64],
        PacketKind::TcpData(header) => seq![
            header.sequence,
            header.sent_time_ns,
            if header.retransmission {
                1u64
            } else {
                0u64
            },
        ],
        PacketKind::TcpAck(header) => seq![
            header.acknowledgment,
            header.acknowledged_bytes,
            header.echoed_sent_time_ns,
        ],
        PacketKind::Pfc(header) => seq![
            header.controlled_link.0,
            header.priority as u64,
            if header.pause {
                1u64
            } else {
                0u64
            },
        ],
    }
}

pub fn packet_metadata(kind: PacketKind) -> (metadata: [u64; 3])
    ensures
        metadata@ == spec_packet_metadata(kind),
{
    let metadata = match kind {
        PacketKind::Data | PacketKind::Feedback => [0, 0, 0],
        PacketKind::TcpData(header) => [
            header.sequence,
            header.sent_time_ns,
            if header.retransmission {
                1
            } else {
                0
            },
        ],
        PacketKind::TcpAck(header) => [
            header.acknowledgment,
            header.acknowledged_bytes,
            header.echoed_sent_time_ns,
        ],
        PacketKind::Pfc(header) => [
            header.controlled_link.0,
            header.priority as u64,
            if header.pause {
                1
            } else {
                0
            },
        ],
    };
    assert(metadata@ =~= spec_packet_metadata(kind));
    metadata
}

/// Kind word of a packet: its kind code, with the top bit set when it is congestion-marked.
pub open spec fn spec_packet_kind_word(packet: PacketDescriptor) -> u64 {
    (spec_packet_kind_code(packet.kind) as u64) | if packet.ecn_marked {
        PACKET_ECN_FLAG
    } else {
        0
    }
}

pub fn encode_packet_kind_word(packet: PacketDescriptor) -> (word: u64)
    ensures
        word == spec_packet_kind_word(packet),
{
    (packet.kind.code() as u64) | if packet.ecn_marked {
        PACKET_ECN_FLAG
    } else {
        0
    }
}

/// Fourteen-word record of an event and its packet.
pub open spec fn spec_event_record(event: Event, packet: PacketDescriptor) -> Seq<u64> {
    let metadata = spec_packet_metadata(packet.kind);
    seq![
        event.key.time_ns,
        event.key.phase as u64,
        event.key.origin_node.0,
        event.key.origin_seq,
        event.target.0,
        spec_event_kind_code(event.kind),
        event.payload.0,
        packet.id.0,
        packet.flow.0,
        packet.size_bytes,
        spec_packet_kind_word(packet),
        metadata[0],
        metadata[1],
        metadata[2],
    ]
}

pub fn event_record(event: Event, packet: PacketDescriptor) -> (record: [u64; 14])
    ensures
        record@ == spec_event_record(event, packet),
{
    let metadata = packet_metadata(packet.kind);
    let record = [
        event.key.time_ns,
        event.key.phase as u64,
        event.key.origin_node.0,
        event.key.origin_seq,
        event.target.0,
        event.kind.code(),
        event.payload.0,
        packet.id.0,
        packet.flow.0,
        packet.size_bytes,
        encode_packet_kind_word(packet),
        metadata[0],
        metadata[1],
        metadata[2],
    ];
    assert(record@ =~= spec_event_record(event, packet));
    record
}

/// Fourteen-word record of a bare packet: the payload word and the packet record, zeros elsewhere.
pub open spec fn spec_packet_record(packet: PacketDescriptor) -> Seq<u64> {
    let metadata = spec_packet_metadata(packet.kind);
    seq![
        0u64,
        0u64,
        0u64,
        0u64,
        0u64,
        0u64,
        packet.id.0,
        packet.id.0,
        packet.flow.0,
        packet.size_bytes,
        spec_packet_kind_word(packet),
        metadata[0],
        metadata[1],
        metadata[2],
    ]
}

pub fn packet_record(packet: PacketDescriptor) -> (record: [u64; 14])
    ensures
        record@ == spec_packet_record(packet),
{
    let metadata = packet_metadata(packet.kind);
    let record = [
        0,
        0,
        0,
        0,
        0,
        0,
        packet.id.0,
        packet.id.0,
        packet.flow.0,
        packet.size_bytes,
        encode_packet_kind_word(packet),
        metadata[0],
        metadata[1],
        metadata[2],
    ];
    assert(record@ =~= spec_packet_record(packet));
    record
}

/// Canonical order of two event records: lexicographic in their key words.
pub open spec fn spec_record_less(left: Seq<u64>, right: Seq<u64>) -> bool {
    ||| left[0] < right[0]
    ||| left[0] == right[0] && left[1] < right[1]
    ||| left[0] == right[0] && left[1] == right[1] && left[2] < right[2]
    ||| left[0] == right[0] && left[1] == right[1] && left[2] == right[2] && left[3] < right[3]
}

pub fn record_less(left: &[u64], right: &[u64]) -> (less: bool)
    requires
        left@.len() >= 4,
        right@.len() >= 4,
    ensures
        less == spec_record_less(left@, right@),
{
    if left[0] != right[0] {
        left[0] < right[0]
    } else if left[1] != right[1] {
        left[1] < right[1]
    } else if left[2] != right[2] {
        left[2] < right[2]
    } else {
        left[3] < right[3]
    }
}

proof fn lemma_kind_word_bits(code: u64, marked: bool)
    requires
        code < 8,
    ensures
        ((code | if marked { PACKET_ECN_FLAG } else { 0 }) & PACKET_KIND_MASK) == code,
        ((code | if marked { PACKET_ECN_FLAG } else { 0 }) & PACKET_ECN_FLAG != 0) == marked,
{
    if marked {
        assert((code | 0x8000_0000_0000_0000u64) & 0x7fff_ffff_ffff_ffffu64 == code) by (bit_vector)
            requires
                code < 8,
        ;
        assert((code | 0x8000_0000_0000_0000u64) & 0x8000_0000_0000_0000u64 != 0) by (bit_vector);
    } else {
        assert((code | 0u64) & 0x7fff_ffff_ffff_ffffu64 == code) by (bit_vector)
            requires
                code < 8,
        ;
        assert((code | 0u64) & 0x8000_0000_0000_0000u64 == 0) by (bit_vector)
            requires
                code < 8,
        ;
    }
}

/// Decoding an event record gives back the event and packet it was encoded from, for every
/// packet kind the device plane carries (all but PFC frames).
pub proof fn law_event_record_round_trip(event: Event, packet: PacketDescriptor)
    requires
        !(packet.kind is Pfc),
    ensures
        spec_decode_event(spec_event_record(event, packet)) == Ok::<(Event, PacketDescriptor), CudaError>(
            (event, packet),
        ),
{
    let record = spec_event_record(event, packet);
    lemma_kind_word_bits(spec_packet_kind_code(packet.kind) as u64, packet.ecn_marked);
    assert(record.subrange(7, 14).subrange(4, 7) =~= spec_packet_metadata(packet.kind));
    match packet.kind {
        PacketKind::TcpData(header) => {
            assert(spec_decode_packet_fields(record.subrange(7, 14)) == Ok::<PacketDescriptor, CudaError>(
                packet,
            ));
        },
        PacketKind::TcpAck(header) => {
            assert(spec_decode_packet_fields(record.subrange(7, 14)) == Ok::<PacketDescriptor, CudaError>(
                packet,
            ));
        },
        _ => {
            assert(spec_decode_packet_fields(record.subrange(7, 14)) == Ok::<PacketDescriptor, CudaError>(
                packet,
            ));
        },
    }
    assert(spec_decode_event_kind(spec_event_kind_code(event.kind)) == Ok::<EventKind, CudaError>(
        event.kind,
    ));
}

// ---------------------------------------------------------------------------------------------
// Configuration and capacity retries.
// ---------------------------------------------------------------------------------------------

/// Physical capacity and bounded CUDA Graph wave policy for one run.
#[derive(Clone, Copy, Debug, PartialEq, Eq, Structural)]
pub struct CudaConfig {
    /// Enables the stream-decomposed FEL. `false` retains the exact fallback heap path.
    pub streams_enabled: bool,
    /// Optional caps for large capacities derived from the complete image. Exact legacy
    /// `max_*` overrides below retain precedence when both forms are specified.
    pub capacity_caps: DeviceCapacityCaps,
    /// Internal lower bounds raised by deterministic capacity retries. Callers normally leave
    /// these zeroed.
    pub capacity_floors: DeviceCapacityFloors,
    /// Maximum number of all-or-nothing replacement attempts after capacity faults. Zero selects
    /// strict single-shot execution.
    pub max_capacity_retries: usize,
    pub max_fel_events_per_lp: Option<usize>,
    /// Optional exact starting capacity for every incoming-channel stream.
    pub max_channel_events_per_stream: Option<usize>,
    pub max_queue_packets_per_lp: Option<usize>,
    pub max_outbox_events: Option<usize>,
    pub max_observations: Option<usize>,
    /// Physical transitions performed by one active LP in one round-kernel launch.
    pub max_transitions_per_lp_per_round: usize,
    /// CUDA threads in each parallel transition/exchange block.
    pub round_threads_per_block: usize,
    /// Complete eight-kernel attempts captured in the reusable graph.
    pub attempts_per_graph_wave: usize,
    /// Optional hard cap overriding the conservative semantic round bound.
    pub max_rounds: Option<usize>,
}

pub open spec fn spec_no_caps() -> DeviceCapacityCaps {
    DeviceCapacityCaps {
        fallback_fel_events_per_lp: None,
        queue_packets_per_lp: None,
        channel_events_per_stream: None,
        remote_staging_events_per_lp: None,
        outbox_events_total: None,
        tcp_receiver_ranges_per_flow: None,
        tcp_ledger_segments_per_flow: None,
        observation_events_per_lp: None,
    }
}

impl Default for CudaConfig {
    fn default() -> (config: Self)
        ensures
            config.streams_enabled,
            config.capacity_caps == spec_no_caps(),
            config.capacity_floors == crate::device_capacity::spec_zero_floors(),
            config.max_capacity_retries == DEFAULT_MAX_CAPACITY_RETRIES,
            config.max_fel_events_per_lp is None,
            config.max_channel_events_per_stream is None,
            config.max_queue_packets_per_lp is None,
            config.max_outbox_events is None,
            config.max_observations is None,
            config.max_transitions_per_lp_per_round == DEFAULT_TRANSITIONS_PER_DISPATCH,
            config.round_threads_per_block == DEFAULT_ROUND_THREADS_PER_BLOCK,
            config.attempts_per_graph_wave == DEFAULT_ATTEMPTS_PER_GRAPH_WAVE,
            config.max_rounds is None,
    {
        CudaConfig {
            streams_enabled: true,
            capacity_caps: DeviceCapacityCaps {
                fallback_fel_events_per_lp: None,
                queue_packets_per_lp: None,
                channel_events_per_stream: None,
                remote_staging_events_per_lp: None,
                outbox_events_total: None,
                tcp_receiver_ranges_per_flow: None,
                tcp_ledger_segments_per_flow: None,
                observation_events_per_lp: None,
            },
            capacity_floors: DeviceCapacityFloors::zero(),
            max_capacity_retries: DEFAULT_MAX_CAPACITY_RETRIES,
            max_fel_events_per_lp: None,
            max_channel_events_per_stream: None,
            max_queue_packets_per_lp: None,
            max_outbox_events: None,
            max_observations: None,
            max_transitions_per_lp_per_round: DEFAULT_TRANSITIONS_PER_DISPATCH,
            round_threads_per_block: DEFAULT_ROUND_THREADS_PER_BLOCK,
            attempts_per_graph_wave: DEFAULT_ATTEMPTS_PER_GRAPH_WAVE,
            max_rounds: None,
        }
    }
}

/// Text of the oversized graph-wave refusal.
pub open spec fn spec_attempts_limit_text(attempts: usize) -> Seq<char> {
    "attempts_per_graph_wave "@ + spec_decimal(attempts as nat) + " exceeds the supported maximum "@
        + spec_decimal(MAX_ATTEMPTS_PER_GRAPH_WAVE as nat)
}

fn attempts_limit_message(attempts: usize) -> (text: String)
    ensures
        text@ == spec_attempts_limit_text(attempts),
{
    let mut text = String::new();
    push_text(&mut text, "attempts_per_graph_wave ");
    push_decimal(&mut text, attempts as u64);
    push_text(&mut text, " exceeds the supported maximum ");
    push_decimal(&mut text, MAX_ATTEMPTS_PER_GRAPH_WAVE as u64);
    text
}

/// Checks the graph-wave policy: attempts per wave in `1..=16384`, and nonzero transitions per LP
/// per round and threads per block, refused in that order.
pub fn validate_config(config: CudaConfig) -> (result: Result<(), CudaError>)
    ensures
        config.attempts_per_graph_wave == 0 ==> (result matches Err(CudaError::Validation(message))
            && message@ == "attempts_per_graph_wave must be nonzero"@),
        config.attempts_per_graph_wave > MAX_ATTEMPTS_PER_GRAPH_WAVE ==> (result matches Err(
            CudaError::Validation(message),
        ) && message@ == spec_attempts_limit_text(config.attempts_per_graph_wave)),
        1 <= config.attempts_per_graph_wave <= MAX_ATTEMPTS_PER_GRAPH_WAVE
            && config.max_transitions_per_lp_per_round == 0 ==> (result matches Err(
            CudaError::Validation(message),
        ) && message@ == "max_transitions_per_lp_per_round must be nonzero"@),
        1 <= config.attempts_per_graph_wave <= MAX_ATTEMPTS_PER_GRAPH_WAVE
            && config.max_transitions_per_lp_per_round != 0 && config.round_threads_per_block == 0
            ==> (result matches Err(CudaError::Validation(message)) && message@
            == "round_threads_per_block must be nonzero"@),
        result is Ok <==> 1 <= config.attempts_per_graph_wave <= MAX_ATTEMPTS_PER_GRAPH_WAVE
            && config.max_transitions_per_lp_per_round != 0 && config.round_threads_per_block != 0,
{
    if config.attempts_per_graph_wave == 0 {
        return Err(CudaError::Validation("attempts_per_graph_wave must be nonzero".to_owned()));
    }
    if config.attempts_per_graph_wave > MAX_ATTEMPTS_PER_GRAPH_WAVE {
        return Err(CudaError::Validation(attempts_limit_message(config.attempts_per_graph_wave)));
    }
    if config.max_transitions_per_lp_per_round == 0 {
        return Err(
            CudaError::Validation("max_transitions_per_lp_per_round must be nonzero".to_owned()),
        );
    }
    if config.round_threads_per_block == 0 {
        return Err(CudaError::Validation("round_threads_per_block must be nonzero".to_owned()));
    }
    Ok(())
}

/// One override/cap/floor lane after a capacity fault: an override equal to the failed capacity
/// grows; otherwise a cap equal to it grows and the floor rises to the grown capacity.
pub open spec fn spec_raise_lane(
    override_capacity: Option<usize>,
    cap: Option<usize>,
    floor: usize,
    capacity: usize,
    grown: usize,
) -> (Option<usize>, Option<usize>, usize) {
    if override_capacity == Some(capacity) {
        (Some(umax(capacity, grown)), cap, floor)
    } else {
        (override_capacity, spec_raised_cap(cap, capacity, grown), umax(floor, grown))
    }
}

/// Arenas whose faults are retried by growing a plane-wide capacity; channel and TCP faults grow
/// per-entity floors instead.
pub open spec fn spec_plane_wide_arena(arena: CudaArena) -> bool {
    !(arena is ChannelInbox || arena is TcpReceiverRanges || arena is TcpSegmentLedger)
}

/// The configuration after a capacity fault of `arena` at `capacity` records, grown to `grown`:
/// the FEL, queue, outbox, observation and remote-staging arenas raise their override, cap or
/// floor lane; the service, generator and worklist arenas raise their floor.
pub open spec fn spec_raise_capacity(config: CudaConfig, arena: CudaArena, capacity: usize, grown: usize) -> CudaConfig {
    let caps = config.capacity_caps;
    let floors = config.capacity_floors;
    match arena {
        CudaArena::Fel => {
            let lane = spec_raise_lane(
                config.max_fel_events_per_lp,
                caps.fallback_fel_events_per_lp,
                floors.fallback_fel_events_per_lp,
                capacity,
                grown,
            );
            CudaConfig {
                max_fel_events_per_lp: lane.0,
                capacity_caps: DeviceCapacityCaps { fallback_fel_events_per_lp: lane.1, ..caps },
                capacity_floors: DeviceCapacityFloors { fallback_fel_events_per_lp: lane.2, ..floors },
                ..config
            }
        },
        CudaArena::ServiceStream => CudaConfig {
            capacity_floors: DeviceCapacityFloors {
                service_events_per_stream: umax(floors.service_events_per_stream, grown),
                ..floors
            },
            ..config
        },
        CudaArena::GeneratorStream => CudaConfig {
            capacity_floors: DeviceCapacityFloors {
                generator_events_per_stream: umax(floors.generator_events_per_stream, grown),
                ..floors
            },
            ..config
        },
        CudaArena::Queue => {
            let lane = spec_raise_lane(
                config.max_queue_packets_per_lp,
                caps.queue_packets_per_lp,
                floors.queue_packets_per_lp,
                capacity,
                grown,
            );
            CudaConfig {
                max_queue_packets_per_lp: lane.0,
                capacity_caps: DeviceCapacityCaps { queue_packets_per_lp: lane.1, ..caps },
                capacity_floors: DeviceCapacityFloors { queue_packets_per_lp: lane.2, ..floors },
                ..config
            }
        },
        CudaArena::Outbox => {
            let lane = spec_raise_lane(
                config.max_outbox_events,
                caps.outbox_events_total,
                floors.outbox_events_total,
                capacity,
                grown,
            );
            CudaConfig {
                max_outbox_events: lane.0,
                capacity_caps: DeviceCapacityCaps { outbox_events_total: lane.1, ..caps },
                capacity_floors: DeviceCapacityFloors { outbox_events_total: lane.2, ..floors },
                ..config
            }
        },
        CudaArena::Worklist => CudaConfig {
            capacity_floors: DeviceCapacityFloors {
                worklist_entries_total: umax(floors.worklist_entries_total, grown),
                ..floors
            },
            ..config
        },
        CudaArena::ObservedPackets | CudaArena::Departures | CudaArena::Arrivals => {
            let lane = spec_raise_lane(
                config.max_observations,
                caps.observation_events_per_lp,
                floors.observation_events,
                capacity,
                grown,
            );
            CudaConfig {
                max_observations: lane.0,
                capacity_caps: DeviceCapacityCaps { observation_events_per_lp: lane.1, ..caps },
                capacity_floors: DeviceCapacityFloors { observation_events: lane.2, ..floors },
                ..config
            }
        },
        CudaArena::RemoteStaging => {
            let lane = spec_raise_lane(
                config.max_outbox_events,
                caps.remote_staging_events_per_lp,
                floors.remote_staging_events_per_lp,
                capacity,
                grown,
            );
            CudaConfig {
                max_outbox_events: lane.0,
                capacity_caps: DeviceCapacityCaps { remote_staging_events_per_lp: lane.1, ..caps },
                capacity_floors: DeviceCapacityFloors { remote_staging_events_per_lp: lane.2, ..floors },
                ..config
            }
        },
        _ => config,
    }
}

impl CudaConfig {
    /// Grows the capacity that failed with `capacity` records to `grown` records.
    pub fn raise_capacity(&mut self, arena: CudaArena, capacity: usize, grown: usize)
        requires
            spec_plane_wide_arena(arena),
        ensures
            *final(self) == spec_raise_capacity(*old(self), arena, capacity, grown),
    {
        match arena {
            CudaArena::Fel => {
                raise_override_cap_or_floor(
                    &mut self.max_fel_events_per_lp,
                    &mut self.capacity_caps.fallback_fel_events_per_lp,
                    &mut self.capacity_floors.fallback_fel_events_per_lp,
                    capacity,
                    grown,
                );
            },
            CudaArena::ServiceStream => {
                if grown > self.capacity_floors.service_events_per_stream {
                    self.capacity_floors.service_events_per_stream = grown;
                }
            },
            CudaArena::GeneratorStream => {
                if grown > self.capacity_floors.generator_events_per_stream {
                    self.capacity_floors.generator_events_per_stream = grown;
                }
            },
            CudaArena::Queue => {
                raise_override_cap_or_floor(
                    &mut self.max_queue_packets_per_lp,
                    &mut self.capacity_caps.queue_packets_per_lp,
                    &mut self.capacity_floors.queue_packets_per_lp,
                    capacity,
                    grown,
                );
            },
            CudaArena::Outbox => {
                raise_override_cap_or_floor(
                    &mut self.max_outbox_events,
                    &mut self.capacity_caps.outbox_events_total,
                    &mut self.capacity_floors.outbox_events_total,
                    capacity,
                    grown,
                );
            },
            CudaArena::Worklist => {
                if grown > self.capacity_floors.worklist_entries_total {
                    self.capacity_floors.worklist_entries_total = grown;
                }
            },
            CudaArena::ObservedPackets | CudaArena::Departures | CudaArena::Arrivals => {
                raise_override_cap_or_floor(
                    &mut self.max_observations,
                    &mut self.capacity_caps.observation_events_per_lp,
                    &mut self.capacity_floors.observation_events,
                    capacity,
                    grown,
                );
            },
            CudaArena::RemoteStaging => {
                raise_override_cap_or_floor(
                    &mut self.max_outbox_events,
                    &mut self.capacity_caps.remote_staging_events_per_lp,
                    &mut self.capacity_floors.remote_staging_events_per_lp,
                    capacity,
                    grown,
                );
            },
            CudaArena::ChannelInbox | CudaArena::TcpReceiverRanges | CudaArena::TcpSegmentLedger => {},
        }
    }
}

pub open spec fn spec_override_or_zero(value: Option<usize>) -> usize {
    match value {
        Some(capacity) => capacity,
        None => 0,
    }
}

/// The effective plane-wide capacity a converged attempt planned, as floor lanes: each floor
/// raised to its explicit override, the producer-outbox override serving both outbox lanes.
pub open spec fn spec_converged_floors(config: CudaConfig) -> DeviceCapacityFloors {
    let floors = config.capacity_floors;
    let producer = spec_override_or_zero(config.max_outbox_events);
    DeviceCapacityFloors {
        fallback_fel_events_per_lp: umax(
            floors.fallback_fel_events_per_lp,
            spec_override_or_zero(config.max_fel_events_per_lp),
        ),
        queue_packets_per_lp: umax(
            floors.queue_packets_per_lp,
            spec_override_or_zero(config.max_queue_packets_per_lp),
        ),
        channel_events_per_stream: umax(
            floors.channel_events_per_stream,
            spec_override_or_zero(config.max_channel_events_per_stream),
        ),
        remote_staging_events_per_lp: umax(floors.remote_staging_events_per_lp, producer),
        outbox_events_total: umax(floors.outbox_events_total, producer),
        observation_events: umax(
            floors.observation_events,
            spec_override_or_zero(config.max_observations),
        ),
        ..floors
    }
}

fn override_or_zero(value: Option<usize>) -> (capacity: usize)
    ensures
        capacity == spec_override_or_zero(value),
{
    match value {
        Some(capacity) => capacity,
        None => 0,
    }
}

fn larger(a: usize, b: usize) -> (m: usize)
    ensures
        m == umax(a, b),
{
    if a >= b {
        a
    } else {
        b
    }
}

/// The plane-wide capacities the converged attempt planned, expressed as floor lanes.
pub fn converged_capacity_floors(config: &CudaConfig) -> (floors: DeviceCapacityFloors)
    ensures
        floors == spec_converged_floors(*config),
{
    let floors = config.capacity_floors;
    let producer = override_or_zero(config.max_outbox_events);
    DeviceCapacityFloors {
        fallback_fel_events_per_lp: larger(
            floors.fallback_fel_events_per_lp,
            override_or_zero(config.max_fel_events_per_lp),
        ),
        queue_packets_per_lp: larger(
            floors.queue_packets_per_lp,
            override_or_zero(config.max_queue_packets_per_lp),
        ),
        channel_events_per_stream: larger(
            floors.channel_events_per_stream,
            override_or_zero(config.max_channel_events_per_stream),
        ),
        remote_staging_events_per_lp: larger(floors.remote_staging_events_per_lp, producer),
        outbox_events_total: larger(floors.outbox_events_total, producer),
        observation_events: larger(floors.observation_events, override_or_zero(config.max_observations)),
        ..floors
    }
}

/// The converged floor lane an arena's capacity is planned from.
pub open spec fn spec_arena_floor(floors: DeviceCapacityFloors, arena: CudaArena) -> usize {
    match arena {
        CudaArena::Fel => floors.fallback_fel_events_per_lp,
        CudaArena::ChannelInbox => floors.channel_events_per_stream,
        CudaArena::ServiceStream => floors.service_events_per_stream,
        CudaArena::GeneratorStream => floors.generator_events_per_stream,
        CudaArena::Queue => floors.queue_packets_per_lp,
        CudaArena::Outbox => floors.outbox_events_total,
        CudaArena::Worklist => floors.worklist_entries_total,
        CudaArena::ObservedPackets => floors.observation_events,
        CudaArena::Departures => floors.observation_events,
        CudaArena::Arrivals => floors.observation_events,
        CudaArena::TcpReceiverRanges => floors.tcp_receiver_ranges_per_flow,
        CudaArena::TcpSegmentLedger => floors.tcp_ledger_segments_per_flow,
        CudaArena::RemoteStaging => floors.remote_staging_events_per_lp,
    }
}

/// A capacity retry never shrinks what a converged attempt plans for any arena, and the arena
/// that faulted is planned with at least the grown capacity.
pub proof fn law_capacity_retry_reaches_grown(
    config: CudaConfig,
    arena: CudaArena,
    capacity: usize,
    grown: usize,
    other: CudaArena,
)
    requires
        spec_plane_wide_arena(arena),
    ensures
        spec_arena_floor(
            spec_converged_floors(spec_raise_capacity(config, arena, capacity, grown)),
            arena,
        ) >= grown,
        spec_arena_floor(spec_converged_floors(spec_raise_capacity(config, arena, capacity, grown)), other)
            >= spec_arena_floor(spec_converged_floors(config), other),
{
}

// ---------------------------------------------------------------------------------------------
// Planned memory and phase accounting.
// ---------------------------------------------------------------------------------------------

/// Exact planned CUDA event-arena footprint for one run.
#[derive(Clone, Copy, Debug, Default, PartialEq, Eq, Structural)]
pub struct CudaMemoryLayout {
    pub streams_enabled: bool,
    pub legacy_heap_event_slots: usize,
    pub fallback_heap_event_slots: usize,
    pub checkpoint_fallback_events: usize,
    pub channel_stream_event_slots: usize,
    pub service_stream_event_slots: usize,
    pub generator_stream_event_slots: usize,
    pub heap_arena_bytes: usize,
    pub stream_arena_bytes: usize,
    pub legacy_heap_arena_bytes: usize,
}

pub open spec fn spec_saturating_usize(value: int) -> usize {
    if value > usize::MAX {
        usize::MAX
    } else {
        value as usize
    }
}

impl CudaMemoryLayout {
    /// Heap plus stream arena bytes, saturating at `usize::MAX`.
    pub fn total_event_arena_bytes(self) -> (bytes: usize)
        ensures
            bytes == spec_saturating_usize(self.heap_arena_bytes + self.stream_arena_bytes),
    {
        self.heap_arena_bytes.saturating_add(self.stream_arena_bytes)
    }

    /// Planned event-arena bytes minus the legacy single-heap footprint.
    pub fn delta_from_legacy_heap_bytes(self) -> (delta: i128)
        ensures
            delta == spec_saturating_usize(self.heap_arena_bytes + self.stream_arena_bytes)
                - self.legacy_heap_arena_bytes,
    {
        self.total_event_arena_bytes() as i128 - self.legacy_heap_arena_bytes as i128
    }
}

/// Device-timestamp totals for the eight phases in every encoded CUDA graph attempt.
#[derive(Clone, Copy, Debug, Default, PartialEq, Eq, Structural)]
pub struct CudaPhaseProfile {
    pub recorded_attempts: u64,
    pub horizon_ns: u64,
    pub prepare_ns: u64,
    pub drain_ns: u64,
    pub control_ns: u64,
    pub exchange_prefix_ns: u64,
    pub exchange_scatter_ns: u64,
    pub exchange_merge_ns: u64,
    pub finalize_ns: u64,
}

pub open spec fn spec_saturating_u64(value: int) -> u64 {
    if value > u64::MAX {
        u64::MAX
    } else {
        value as u64
    }
}

/// Time recorded for phase `phase` of the eight, in graph order.
pub open spec fn spec_phase_ns(profile: CudaPhaseProfile, phase: int) -> u64 {
    if phase == 0 {
        profile.horizon_ns
    } else if phase == 1 {
        profile.prepare_ns
    } else if phase == 2 {
        profile.drain_ns
    } else if phase == 3 {
        profile.control_ns
    } else if phase == 4 {
        profile.exchange_prefix_ns
    } else if phase == 5 {
        profile.exchange_scatter_ns
    } else if phase == 6 {
        profile.exchange_merge_ns
    } else {
        profile.finalize_ns
    }
}

/// Exact sum of the first `phases` phase totals.
pub open spec fn spec_phase_sum(profile: CudaPhaseProfile, phases: int) -> int
    decreases phases,
{
    if phases <= 0 {
        0
    } else {
        spec_phase_sum(profile, phases - 1) + spec_phase_ns(profile, phases - 1)
    }
}

/// Number of profiled phases in one graph attempt.
pub const PROFILED_PHASES: usize = 8;

impl CudaPhaseProfile {
    /// All eight phase totals summed, saturating at `u64::MAX`.
    pub fn total_kernel_ns(self) -> (total: u64)
        ensures
            total == spec_saturating_u64(spec_phase_sum(self, 8)),
    {
        let phases = [
            self.horizon_ns,
            self.prepare_ns,
            self.drain_ns,
            self.control_ns,
            self.exchange_prefix_ns,
            self.exchange_scatter_ns,
            self.exchange_merge_ns,
            self.finalize_ns,
        ];
        let mut total: u64 = 0;
        let mut phase: usize = 0;
        while phase < PROFILED_PHASES
            invariant
                phase <= 8,
                forall|p: int| 0 <= p < 8 ==> #[trigger] phases@[p] == spec_phase_ns(self, p),
                total == spec_saturating_u64(spec_phase_sum(self, phase as int)),
                spec_phase_sum(self, phase as int) >= 0,
            decreases 8 - phase,
        {
            total = total.saturating_add(phases[phase]);
            phase = phase + 1;
        }
        total
    }

    /// Adds a measured duration to phase `phase`, saturating at `u64::MAX`.
    pub fn observe(&mut self, phase: usize, elapsed_ns: u64)
        requires
            phase < PROFILED_PHASES,
        ensures
            final(self).recorded_attempts == old(self).recorded_attempts,
            forall|p: int|
                0 <= p < 8 ==> #[trigger] spec_phase_ns(*final(self), p) == if p == phase {
                    spec_saturating_u64(spec_phase_ns(*old(self), p) + elapsed_ns)
                } else {
                    spec_phase_ns(*old(self), p)
                },
    {
        if phase == 0 {
            self.horizon_ns = self.horizon_ns.saturating_add(elapsed_ns);
        } else if phase == 1 {
            self.prepare_ns = self.prepare_ns.saturating_add(elapsed_ns);
        } else if phase == 2 {
            self.drain_ns = self.drain_ns.saturating_add(elapsed_ns);
        } else if phase == 3 {
            self.control_ns = self.control_ns.saturating_add(elapsed_ns);
        } else if phase == 4 {
            self.exchange_prefix_ns = self.exchange_prefix_ns.saturating_add(elapsed_ns);
        } else if phase == 5 {
            self.exchange_scatter_ns = self.exchange_scatter_ns.saturating_add(elapsed_ns);
        } else if phase == 6 {
            self.exchange_merge_ns = self.exchange_merge_ns.saturating_add(elapsed_ns);
        } else {
            self.finalize_ns = self.finalize_ns.saturating_add(elapsed_ns);
        }
    }
}

/// One-time CUDA context, stream, module, and kernel initialization costs.
#[derive(Clone, Copy, Debug, PartialEq, Eq, Structural)]
pub struct CudaInitializationTimings {
    pub context_stream_setup_ns: u64,
    pub module_function_load_ns: u64,
}

// ---------------------------------------------------------------------------------------------
// Plane sizing.
// ---------------------------------------------------------------------------------------------

/// Bytes of an event arena of `record_slots` records plus `meta_words` metadata words.
pub open spec fn spec_event_arena_bytes(record_slots: int, meta_words: int) -> int {
    (record_slots * 14 + meta_words) * 8
}

/// Bytes of an event arena, refused when they do not fit `usize`.
pub fn event_arena_bytes(record_slots: usize, meta_words: usize) -> (bytes: Result<usize, CudaError>)
    ensures
        spec_event_arena_bytes(record_slots as int, meta_words as int) <= usize::MAX ==> bytes
            == Ok::<usize, CudaError>(
            spec_event_arena_bytes(record_slots as int, meta_words as int) as usize,
        ),
        spec_event_arena_bytes(record_slots as int, meta_words as int) > usize::MAX ==> (bytes matches Err(
            CudaError::Validation(message),
        ) && message@ == "event arena byte size overflows usize"@),
{
    let words = match record_slots.checked_mul(EVENT_WORDS) {
        Some(words) => words.checked_add(meta_words),
        None => None,
    };
    let bytes = match words {
        Some(words) => words.checked_mul(8),
        None => None,
    };
    match bytes {
        Some(bytes) => Ok(bytes),
        None => Err(CudaError::Validation("event arena byte size overflows usize".to_owned())),
    }
}

/// Sum of the first `upto` values.
pub open spec fn spec_usize_sum(values: Seq<usize>, upto: int) -> int
    decreases upto,
{
    if upto <= 0 {
        0
    } else {
        spec_usize_sum(values, upto - 1) + values[upto - 1]
    }
}

proof fn lemma_usize_sum_monotone(values: Seq<usize>, a: int, b: int)
    requires
        0 <= a <= b <= values.len(),
    ensures
        0 <= spec_usize_sum(values, a) <= spec_usize_sum(values, b),
    decreases b,
{
    if b > 0 {
        if a == b {
            lemma_usize_sum_monotone(values, a - 1, b - 1);
        } else {
            lemma_usize_sum_monotone(values, a, b - 1);
        }
    }
}

fn overflow_message(label: &str) -> (text: String)
    ensures
        text@ == label@ + " overflow usize"@,
{
    let mut text = String::new();
    push_text(&mut text, label);
    push_text(&mut text, " overflow usize");
    text
}

/// Sum of the values, refused as a `label` overflow when it does not fit `usize`.
pub fn checked_sum_usize(values: &[usize], label: &str) -> (sum: Result<usize, CudaError>)
    ensures
        spec_usize_sum(values@, values@.len() as int) <= usize::MAX ==> sum == Ok::<usize, CudaError>(
            spec_usize_sum(values@, values@.len() as int) as usize,
        ),
        spec_usize_sum(values@, values@.len() as int) > usize::MAX ==> (sum matches Err(
            CudaError::Validation(message),
        ) && message@ == label@ + " overflow usize"@),
{
    let mut total: usize = 0;
    let mut index: usize = 0;
    while index < values.len()
        invariant
            index <= values@.len(),
            total == spec_usize_sum(values@, index as int),
        decreases values@.len() - index,
    {
        match total.checked_add(values[index]) {
            Some(next) => {
                total = next;
            },
            None => {
                proof {
                    lemma_usize_sum_monotone(values@, index + 1, values@.len() as int);
                }
                return Err(CudaError::Validation(overflow_message(label)));
            },
        }
        index = index + 1;
    }
    Ok(total)
}

/// Reserves `records * words` words at `*next`, returning the reservation's start.
pub fn take_words(next: &mut usize, records: usize, words: usize) -> (start: Result<usize, CudaError>)
    ensures
        *old(next) + records * words <= usize::MAX ==> start == Ok::<usize, CudaError>(*old(next))
            && *final(next) == *old(next) + records * words,
        *old(next) + records * words > usize::MAX ==> (start matches Err(CudaError::Validation(message))
            && message@ == "stream state size overflows usize"@ && *final(next) == *old(next)),
{
    let start = *next;
    proof {
        assert(records * words >= 0) by (nonlinear_arith)
            requires
                records >= 0,
                words >= 0,
        ;
    }
    let size = match records.checked_mul(words) {
        Some(size) => size,
        None => {
            return Err(CudaError::Validation("stream state size overflows usize".to_owned()));
        },
    };
    match start.checked_add(size) {
        Some(end) => {
            *next = end;
            Ok(start)
        },
        None => Err(CudaError::Validation("stream state size overflows usize".to_owned())),
    }
}

/// A zeroed device buffer of `records * words` words, at least one word long.
pub fn zero_words(records: usize, words: usize) -> (buffer: Result<Vec<u64>, CudaError>)
    ensures
        records * words > usize::MAX ==> (buffer matches Err(CudaError::Validation(message))
            && message@ == "device buffer size overflows usize"@),
        records * words <= usize::MAX ==> (buffer matches Ok(buffer) && buffer@.len() == if records
            * words == 0 {
            1
        } else {
            records * words
        } && forall|i: int| 0 <= i < buffer@.len() ==> #[trigger] buffer@[i] == 0),
{
    let length = match records.checked_mul(words) {
        Some(length) => length,
        None => {
            return Err(CudaError::Validation("device buffer size overflows usize".to_owned()));
        },
    };
    let length = if length == 0 {
        1
    } else {
        length
    };
    let mut buffer: Vec<u64> = Vec::new();
    while buffer.len() < length
        invariant
            buffer@.len() <= length,
            forall|i: int| 0 <= i < buffer@.len() ==> #[trigger] buffer@[i] == 0,
        decreases length - buffer@.len(),
    {
        buffer.push(0);
    }
    Ok(buffer)
}

/// Writes each arena's `(offset, capacity)` header, offsets packed in slot order, and returns the
/// total record count. A slot's header is written once every earlier capacity has been summed
/// without overflow; the total is refused when it does not fit `usize`.
#[verifier::spinoff_prover]
pub fn assign_arena_offsets(meta: &mut [u64], capacities: &[usize]) -> (total: Result<usize, CudaError>)
    requires
        old(meta)@.len() >= capacities@.len() * ARENA_META_WORDS,
    ensures
        final(meta)@.len() == old(meta)@.len(),
        forall|slot: int|
            0 <= slot < capacities@.len() && spec_usize_sum(capacities@, slot) <= usize::MAX ==> {
                &&& #[trigger] final(meta)@[slot * 4] == spec_usize_sum(capacities@, slot)
                &&& final(meta)@[slot * 4 + 1] == capacities@[slot]
            },
        forall|i: int|
            0 <= i < old(meta)@.len() && !(exists|slot: int|
                0 <= slot < capacities@.len() && #[trigger] spec_usize_sum(capacities@, slot)
                    <= usize::MAX && (i == slot * 4 || i == slot * 4 + 1)) ==> #[trigger] final(meta)@[i]
                == old(meta)@[i],
        spec_usize_sum(capacities@, capacities@.len() as int) <= usize::MAX ==> total == Ok::<
            usize,
            CudaError,
        >(spec_usize_sum(capacities@, capacities@.len() as int) as usize),
        spec_usize_sum(capacities@, capacities@.len() as int) > usize::MAX ==> (total matches Err(
            CudaError::Validation(message),
        ) && message@ == "device arena size overflows usize"@),
{
    let ghost initial = meta@;
    let meta_len = meta.len();
    let mut offset: usize = 0;
    let mut slot: usize = 0;
    while slot < capacities.len()
        invariant
            slot <= capacities@.len(),
            initial == old(meta)@,
            meta_len == initial.len(),
            meta@.len() == initial.len(),
            initial.len() >= capacities@.len() * 4,
            offset == spec_usize_sum(capacities@, slot as int),
            forall|s: int|
                0 <= s < slot ==> {
                    &&& #[trigger] meta@[s * 4] == spec_usize_sum(capacities@, s)
                    &&& meta@[s * 4 + 1] == capacities@[s]
                },
            forall|i: int| slot * 4 <= i < initial.len() ==> #[trigger] meta@[i] == initial[i],
            forall|i: int|
                0 <= i < slot * 4 && i % 4 != 0 && i % 4 != 1 ==> #[trigger] meta@[i] == initial[i],
            forall|s: int| 0 <= s <= slot ==> spec_usize_sum(capacities@, s) <= usize::MAX,
        decreases capacities@.len() - slot,
    {
        let base = slot * 4;
        let capacity = capacities[slot];
        let ghost head = meta@;
        meta[base] = offset as u64;
        meta[base + 1] = capacity as u64;
        proof {
            lemma_usize_sum_monotone(capacities@, slot + 1, capacities@.len() as int);
            assert(meta@ == head.update(base as int, offset as u64).update(
                base as int + 1,
                capacity as u64,
            ));
        }
        match offset.checked_add(capacity) {
            Some(next) => {
                offset = next;
            },
            None => {
                proof {
                    assert(spec_usize_sum(capacities@, slot as int + 1) == offset + capacity);
                    assert(spec_usize_sum(capacities@, slot as int + 1) > usize::MAX);
                    assert forall|s: int|
                        0 <= s < capacities@.len() && spec_usize_sum(capacities@, s) <= usize::MAX implies {
                            &&& #[trigger] meta@[s * 4] == spec_usize_sum(capacities@, s)
                            &&& meta@[s * 4 + 1] == capacities@[s]
                        } by {
                        if s > slot {
                            lemma_usize_sum_monotone(capacities@, slot + 1, s);
                            assert(false);
                        } else if s == slot {
                            assert(meta@[s * 4] == offset);
                            assert(meta@[s * 4 + 1] == capacity);
                        } else {
                            assert(s * 4 + 1 < slot * 4);
                            assert(meta@[s * 4] == head[s * 4]);
                            assert(meta@[s * 4 + 1] == head[s * 4 + 1]);
                            assert(head[s * 4] == spec_usize_sum(capacities@, s));
                        }
                    }
                    assert forall|i: int|
                        0 <= i < initial.len() && !(exists|s: int|
                            0 <= s < capacities@.len() && #[trigger] spec_usize_sum(capacities@, s)
                                <= usize::MAX && (i == s * 4 || i == s * 4 + 1)) implies #[trigger] meta@[i]
                        == initial[i] by {
                        if i < (slot + 1) * 4 {
                            let s = i / 4;
                            assert(i == 4 * s + i % 4);
                            if i % 4 == 0 || i % 4 == 1 {
                                assert(i == s * 4 || i == s * 4 + 1);
                                assert(0 <= s <= slot);
                                assert(spec_usize_sum(capacities@, s) <= usize::MAX);
                            }
                        }
                    }
                }
                return Err(CudaError::Validation("device arena size overflows usize".to_owned()));
            },
        }
        slot = slot + 1;
    }
    proof {
        assert forall|i: int|
            0 <= i < initial.len() && !(exists|s: int|
                0 <= s < capacities@.len() && #[trigger] spec_usize_sum(capacities@, s) <= usize::MAX
                    && (i == s * 4 || i == s * 4 + 1)) implies #[trigger] meta@[i] == initial[i] by {
            if i < slot * 4 {
                let s = i / 4;
                assert(i == 4 * s + i % 4);
                if i % 4 == 0 || i % 4 == 1 {
                    assert(i == s * 4 || i == s * 4 + 1);
                    assert(0 <= s < slot);
                    assert(spec_usize_sum(capacities@, s) <= usize::MAX);
                }
            }
        }
    }
    Ok(offset)
}

/// A written observation-header word: offset or capacity of one of a slot's three logs.
pub open spec fn spec_observation_header_word(i: int, slot: int) -> bool {
    let r = i - slot * 12;
    r == 0 || r == 1 || r == 4 || r == 5 || r == 8 || r == 9
}

/// Writes each LP's three observation-log `(offset, capacity)` headers, the three logs of a slot
/// sharing one offset, offsets packed in slot order, and returns the total record count. A slot's
/// headers are written once every earlier capacity has been summed without overflow.
#[verifier::spinoff_prover]
pub fn assign_observation_offsets(meta: &mut [u64], capacities: &[usize]) -> (total: Result<
    usize,
    CudaError,
>)
    requires
        old(meta)@.len() >= capacities@.len() * OBSERVATION_META_WORDS,
    ensures
        final(meta)@.len() == old(meta)@.len(),
        forall|slot: int, log: int|
            0 <= slot < capacities@.len() && 0 <= log < 3 && spec_usize_sum(capacities@, slot)
                <= usize::MAX ==> {
                &&& #[trigger] final(meta)@[slot * 12 + log * 4] == spec_usize_sum(capacities@, slot)
                &&& final(meta)@[slot * 12 + log * 4 + 1] == capacities@[slot]
            },
        forall|i: int|
            0 <= i < old(meta)@.len() && !(exists|slot: int|
                0 <= slot < capacities@.len() && #[trigger] spec_usize_sum(capacities@, slot)
                    <= usize::MAX && spec_observation_header_word(i, slot)) ==> #[trigger] final(meta)@[i]
                == old(meta)@[i],
        spec_usize_sum(capacities@, capacities@.len() as int) <= usize::MAX ==> total == Ok::<
            usize,
            CudaError,
        >(spec_usize_sum(capacities@, capacities@.len() as int) as usize),
        spec_usize_sum(capacities@, capacities@.len() as int) > usize::MAX ==> (total matches Err(
            CudaError::Validation(message),
        ) && message@ == "observation arena size overflows"@),
{
    let ghost initial = meta@;
    let meta_len = meta.len();
    let mut offset: usize = 0;
    let mut slot: usize = 0;
    while slot < capacities.len()
        invariant
            slot <= capacities@.len(),
            initial == old(meta)@,
            meta_len == initial.len(),
            meta@.len() == initial.len(),
            initial.len() >= capacities@.len() * 12,
            offset == spec_usize_sum(capacities@, slot as int),
            forall|s: int, log: int|
                0 <= s < slot && 0 <= log < 3 ==> {
                    &&& #[trigger] meta@[s * 12 + log * 4] == spec_usize_sum(capacities@, s)
                    &&& meta@[s * 12 + log * 4 + 1] == capacities@[s]
                },
            forall|i: int| slot * 12 <= i < initial.len() ==> #[trigger] meta@[i] == initial[i],
            forall|i: int|
                0 <= i < slot * 12 && !spec_observation_header_word(i, i / 12) ==> #[trigger] meta@[i]
                    == initial[i],
            forall|s: int| 0 <= s <= slot ==> spec_usize_sum(capacities@, s) <= usize::MAX,
        decreases capacities@.len() - slot,
    {
        let base = slot * 12;
        let capacity = capacities[slot];
        let ghost before = meta@;
        let mut log: usize = 0;
        while log < 3
            invariant
                log <= 3,
                slot < capacities@.len(),
                base == slot * 12,
                base + 12 <= meta_len,
                meta_len == meta@.len(),
                before.len() == meta@.len(),
                capacity == capacities@[slot as int],
                offset == spec_usize_sum(capacities@, slot as int),
                forall|l: int|
                    0 <= l < log ==> {
                        &&& #[trigger] meta@[base + l * 4] == offset
                        &&& meta@[base + l * 4 + 1] == capacity
                    },
                forall|i: int|
                    0 <= i < meta@.len() && !(base <= i < base + log * 4 && (i - base) % 4 <= 1)
                        ==> #[trigger] meta@[i] == before[i],
            decreases 3 - log,
        {
            let log_base = base + log * 4;
            let ghost previous = meta@;
            meta[log_base] = offset as u64;
            meta[log_base + 1] = capacity as u64;
            proof {
                assert forall|l: int| 0 <= l < log + 1 implies {
                    &&& #[trigger] meta@[base + l * 4] == offset
                    &&& meta@[base + l * 4 + 1] == capacity
                } by {
                    if l < log {
                        assert(meta@[base + l * 4] == previous[base + l * 4]);
                        assert(meta@[base + l * 4 + 1] == previous[base + l * 4 + 1]);
                    }
                }
            }
            log = log + 1;
        }
        proof {
            assert forall|s: int, l: int| 0 <= s < slot + 1 && 0 <= l < 3 implies {
                &&& #[trigger] meta@[s * 12 + l * 4] == spec_usize_sum(capacities@, s)
                &&& meta@[s * 12 + l * 4 + 1] == capacities@[s]
            } by {
                if s < slot {
                    assert(s * 12 + l * 4 + 1 < slot * 12) by (nonlinear_arith)
                        requires
                            s < slot,
                            0 <= l < 3,
                    ;
                    assert(meta@[s * 12 + l * 4] == before[s * 12 + l * 4]);
                    assert(meta@[s * 12 + l * 4 + 1] == before[s * 12 + l * 4 + 1]);
                } else {
                    assert(meta@[base + l * 4] == offset);
                }
            }
            assert forall|i: int|
                0 <= i < (slot + 1) * 12 && !spec_observation_header_word(i, i / 12) implies #[trigger] meta@[i]
                == initial[i] by {
                let q = i / 12;
                assert(i == 12 * q + i % 12);
                if i >= base {
                    assert(q == slot);
                    let r = i - base;
                    if r % 4 <= 1 && r < 12 {
                        let l = r / 4;
                        assert(r == 4 * l + r % 4);
                        assert(0 <= l < 3);
                        assert(i == slot * 12 + l * 4 || i == slot * 12 + l * 4 + 1);
                        assert(spec_observation_header_word(i, i / 12));
                    }
                    assert(meta@[i] == before[i]);
                } else {
                    assert(meta@[i] == before[i]);
                }
            }
            lemma_usize_sum_monotone(capacities@, slot + 1, capacities@.len() as int);
        }
        match offset.checked_add(capacity) {
            Some(next) => {
                offset = next;
            },
            None => {
                proof {
                    assert(spec_usize_sum(capacities@, slot as int + 1) == offset + capacity);
                    assert(spec_usize_sum(capacities@, slot as int + 1) > usize::MAX);
                    assert forall|s: int, l: int|
                        0 <= s < capacities@.len() && 0 <= l < 3 && spec_usize_sum(capacities@, s)
                            <= usize::MAX implies {
                            &&& #[trigger] meta@[s * 12 + l * 4] == spec_usize_sum(capacities@, s)
                            &&& meta@[s * 12 + l * 4 + 1] == capacities@[s]
                        } by {
                        if s > slot {
                            lemma_usize_sum_monotone(capacities@, slot + 1, s);
                            assert(false);
                        } else {
                            assert(0 <= s < slot + 1);
                        }
                    }
                    assert forall|i: int|
                        0 <= i < initial.len() && !(exists|s: int|
                            0 <= s < capacities@.len() && #[trigger] spec_usize_sum(capacities@, s)
                                <= usize::MAX && spec_observation_header_word(i, s)) implies #[trigger] meta@[i]
                        == initial[i] by {
                        if i < (slot + 1) * 12 {
                            let q = i / 12;
                            assert(i == 12 * q + i % 12);
                            if spec_observation_header_word(i, q) {
                                assert(0 <= q <= slot);
                                assert(spec_usize_sum(capacities@, q) <= usize::MAX);
                            }
                        }
                    }
                }
                return Err(CudaError::Validation("observation arena size overflows".to_owned()));
            },
        }
        slot = slot + 1;
    }
    proof {
        assert forall|i: int|
            0 <= i < initial.len() && !(exists|s: int|
                0 <= s < capacities@.len() && #[trigger] spec_usize_sum(capacities@, s) <= usize::MAX
                    && spec_observation_header_word(i, s)) implies #[trigger] meta@[i] == initial[i] by {
            if i < slot * 12 {
                let q = i / 12;
                assert(i == 12 * q + i % 12);
                if spec_observation_header_word(i, q) {
                    assert(0 <= q < slot);
                    assert(spec_usize_sum(capacities@, q) <= usize::MAX);
                }
            }
        }
    }
    Ok(offset)
}

} // verus!
