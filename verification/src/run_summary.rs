//! Run-wide packet and byte counters, and their checked accumulation across LPs.

use vstd::prelude::*;

use crate::cpu::ExecutionError;
use crate::event::NodeId;

verus! {

/// Run-wide packet and byte counters.
#[derive(Clone, Copy, Debug, Default, PartialEq, Eq, Structural)]
pub struct RunSummary {
    pub sourced_packets: u128,
    pub sourced_bytes: u128,
    pub departed_packets: u128,
    pub departed_bytes: u128,
    pub admitted_packets: u128,
    pub admitted_bytes: u128,
    pub received_packets: u128,
    pub received_bytes: u128,
    pub dropped_packets: u128,
    pub dropped_bytes: u128,
    pub feedback_packets: u128,
    pub feedback_bytes: u128,
}

/// The counters of a summary, in declaration order.
pub open spec fn spec_counters(summary: RunSummary) -> Seq<u128> {
    seq![
        summary.sourced_packets,
        summary.sourced_bytes,
        summary.departed_packets,
        summary.departed_bytes,
        summary.admitted_packets,
        summary.admitted_bytes,
        summary.received_packets,
        summary.received_bytes,
        summary.dropped_packets,
        summary.dropped_bytes,
        summary.feedback_packets,
        summary.feedback_bytes,
    ]
}

/// The first counter, in declaration order, whose sum does not fit `u128`; the counter count
/// when every sum fits.
pub open spec fn spec_first_overflow(total: RunSummary, local: RunSummary, from: int) -> int
    decreases 12 - from,
{
    if from < 0 || from >= 12 {
        12
    } else if spec_counters(total)[from] + spec_counters(local)[from] > u128::MAX {
        from
    } else {
        spec_first_overflow(total, local, from + 1)
    }
}

/// `total` with the first `upto` counters raised by `local`'s.
pub open spec fn spec_added_through(total: RunSummary, local: RunSummary, upto: int) -> Seq<u128> {
    Seq::new(
        12,
        |i: int|
            if i < upto {
                (spec_counters(total)[i] + spec_counters(local)[i]) as u128
            } else {
                spec_counters(total)[i]
            },
    )
}

fn add_counter(total: u128, local: u128, node: NodeId) -> (sum: Result<u128, ExecutionError>)
    ensures
        total + local <= u128::MAX ==> sum == Ok::<u128, ExecutionError>((total + local) as u128),
        total + local > u128::MAX ==> sum == Err::<u128, ExecutionError>(
            ExecutionError::CounterOverflow(node),
        ),
{
    match total.checked_add(local) {
        Some(sum) => Ok(sum),
        None => Err(ExecutionError::CounterOverflow(node)),
    }
}

/// Adds an LP's counters into the run total, counter by counter in declaration order. The
/// first sum that does not fit `u128` is refused as an overflow at `node`; the counters before
/// it have already been added and the rest are unchanged.
pub fn add_summary_checked(total: &mut RunSummary, local: RunSummary, node: NodeId) -> (result:
    Result<(), ExecutionError>)
    ensures
        spec_counters(*final(total)) == spec_added_through(
            *old(total),
            local,
            spec_first_overflow(*old(total), local, 0),
        ),
        spec_first_overflow(*old(total), local, 0) < 12 ==> result == Err::<(), ExecutionError>(
            ExecutionError::CounterOverflow(node),
        ),
        spec_first_overflow(*old(total), local, 0) == 12 ==> result == Ok::<(), ExecutionError>(()),
{
    reveal_with_fuel(spec_first_overflow, 13);
    total.sourced_packets = add_counter(total.sourced_packets, local.sourced_packets, node)?;
    total.sourced_bytes = add_counter(total.sourced_bytes, local.sourced_bytes, node)?;
    total.departed_packets = add_counter(total.departed_packets, local.departed_packets, node)?;
    total.departed_bytes = add_counter(total.departed_bytes, local.departed_bytes, node)?;
    total.admitted_packets = add_counter(total.admitted_packets, local.admitted_packets, node)?;
    total.admitted_bytes = add_counter(total.admitted_bytes, local.admitted_bytes, node)?;
    total.received_packets = add_counter(total.received_packets, local.received_packets, node)?;
    total.received_bytes = add_counter(total.received_bytes, local.received_bytes, node)?;
    total.dropped_packets = add_counter(total.dropped_packets, local.dropped_packets, node)?;
    total.dropped_bytes = add_counter(total.dropped_bytes, local.dropped_bytes, node)?;
    total.feedback_packets = add_counter(total.feedback_packets, local.feedback_packets, node)?;
    total.feedback_bytes = add_counter(total.feedback_bytes, local.feedback_bytes, node)?;
    Ok(())
}

} // verus!
