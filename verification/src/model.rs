//! Node roles, queue disciplines and congestion-control state carried by simulation images.

use vstd::prelude::*;

verus! {

/// Role of one logical process.
#[derive(Clone, Copy, Debug, PartialEq, Eq, Hash, Structural)]
pub enum NodeKind {
    Host,
    Switch,
}

/// Queue-depth unit of an active queue-management policy.
#[derive(Clone, Copy, Debug, PartialEq, Eq, Hash, Structural)]
pub enum QueueDepthUnit {
    Packets,
    Bytes,
}

/// Deterministic ECN marking at a fixed instantaneous queue-depth threshold.
#[derive(Clone, Copy, Debug, PartialEq, Eq, Hash, Structural)]
pub struct EcnThresholdPolicy {
    pub unit: QueueDepthUnit,
    pub capacity: u64,
    pub threshold: u64,
}

/// Exact fixed-point RED state with a deterministic marking counter.
#[derive(Clone, Copy, Debug, PartialEq, Eq, Hash, Structural)]
pub struct RedPolicyState {
    pub unit: QueueDepthUnit,
    pub capacity: u64,
    pub min_threshold: u64,
    pub max_threshold: u64,
    pub max_probability_numerator: u64,
    pub max_probability_denominator: u64,
    pub mark_ecn: bool,
    pub average_scaled: u64,
    pub counter: u64,
}

/// Admission and marking policy of one switch egress queue.
#[derive(Clone, Copy, Debug, PartialEq, Eq, Hash, Structural)]
pub enum DropMarkPolicy {
    TailDrop,
    EcnThreshold(EcnThresholdPolicy),
    Red(RedPolicyState),
}

/// Weighted-fair-queueing class state.
#[derive(Clone, Debug, PartialEq, Eq)]
pub struct WfqSchedulerState {
    pub weights: Vec<u64>,
    pub active_packets: Vec<u64>,
    pub last_updated_ns: u64,
}

/// Service discipline of one switch egress queue.
#[derive(Clone, Debug, PartialEq, Eq)]
pub enum SchedulerKind {
    Fifo,
    StaticPriority { priorities: Vec<u64> },
    WeightedFairQueue(WfqSchedulerState),
}

/// Phase of a TCP congestion-control state machine.
#[derive(Clone, Copy, Debug, PartialEq, Eq, Hash, Structural)]
pub enum TcpPhase {
    SlowStart,
    CongestionAvoidance,
    FastRecovery,
}

/// Exact Reno congestion-control state in bytes.
#[derive(Clone, Copy, Debug, PartialEq, Eq, Hash, Structural)]
pub struct TcpReno {
    pub mss_bytes: u64,
    pub cwnd_bytes: u64,
    pub ssthresh_bytes: u64,
    pub phase: TcpPhase,
    pub duplicate_acks: u64,
    pub recovery_high_sequence: u64,
    pub ca_credit: u64,
}

/// Exact fixed-point CUBIC congestion-control state.
#[derive(Clone, Copy, Debug, PartialEq, Eq, Hash, Structural)]
pub struct TcpCubic {
    pub mss_bytes: u64,
    pub cwnd_scaled: u64,
    pub ssthresh_scaled: u64,
    pub phase: TcpPhase,
    pub duplicate_acks: u64,
    pub recovery_high_sequence: u64,
    pub w_max_scaled: u64,
    pub w_last_max_scaled: u64,
    pub epoch_start_ns: u64,
    pub srtt_ns: u64,
    pub k_ns: u64,
}

/// Closed set of TCP congestion controllers.
#[derive(Clone, Copy, Debug, PartialEq, Eq, Hash, Structural)]
pub enum TcpCongestionControl {
    Reno(TcpReno),
    Cubic(TcpCubic),
}

} // verus!
