//! Round decisions of the CPU pool coordinator.
//!
//! The coordinator runs the pool in conservative rounds. Each round starts from the frontier, the
//! earliest pending event over every worker, and lets every LP execute the events strictly before
//! the exclusive horizon: the frontier plus the minimum channel delay, never past the end of the
//! run. Nothing an LP sends can arrive before that horizon, so a round never needs an event it
//! has not yet received. The pool stops when no event is pending or the frontier reaches the end.
//! Sending the commands and collecting the replies stays with the caller; the decisions are here.

use vstd::prelude::*;
use crate::cpu::ExecutionError;
use crate::device_sizing::{minimum_lookahead, spec_lookahead};
use crate::event::NodeId;
use crate::image::SimulationImage;

verus! {

/// The first time past every `u64` time: the exclusive end of a run with no bound.
pub const TIME_AFTER_U64_MAX: u128 = 0x1_0000_0000_0000_0000;

/// The exclusive end of a run: the requested horizon, or past every `u64` time, and never past
/// the image's stop time.
pub open spec fn spec_run_end(stop_time_ns: u64, exclusive_horizon_ns: Option<u64>) -> u128 {
    let requested: u128 = match exclusive_horizon_ns {
        Some(horizon) => horizon as u128,
        None => TIME_AFTER_U64_MAX,
    };
    let configured: u128 = (stop_time_ns + 1) as u128;
    if requested <= configured {
        requested
    } else {
        configured
    }
}

pub fn run_end(stop_time_ns: u64, exclusive_horizon_ns: Option<u64>) -> (end: u128)
    ensures
        end == spec_run_end(stop_time_ns, exclusive_horizon_ns),
{
    let requested: u128 = match exclusive_horizon_ns {
        Some(horizon) => horizon as u128,
        None => TIME_AFTER_U64_MAX,
    };
    let configured: u128 = stop_time_ns as u128 + 1;
    if requested <= configured {
        requested
    } else {
        configured
    }
}

/// The pool's lookahead: the minimum channel delay, if there is a channel. A zero delay is
/// refused, since no round could then advance past its frontier.
pub fn pool_lookahead(image: &SimulationImage) -> (lookahead: Result<Option<u64>, ExecutionError>)
    ensures
        spec_lookahead(image.channels@) == Some(0u64) ==> lookahead == Err::<Option<u64>, ExecutionError>(
            ExecutionError::NonPositiveLookahead,
        ),
        spec_lookahead(image.channels@) != Some(0u64) ==> lookahead == Ok::<Option<u64>, ExecutionError>(
            spec_lookahead(image.channels@),
        ),
{
    let lookahead = minimum_lookahead(image);
    if lookahead == Some(0u64) {
        return Err(ExecutionError::NonPositiveLookahead);
    }
    Ok(lookahead)
}

/// The earliest pending event time over the workers' reported minima, if any is pending.
pub open spec fn spec_frontier(minima: Seq<Option<u64>>) -> Option<u64>
    decreases minima.len(),
{
    if minima.len() == 0 {
        None
    } else {
        match (spec_frontier(minima.drop_last()), minima.last()) {
            (None, last) => last,
            (Some(rest), None) => Some(rest),
            (Some(rest), Some(last)) => Some(if rest <= last { rest } else { last }),
        }
    }
}

/// The coordinator's state between rounds.
#[derive(Clone, Copy, Debug, PartialEq, Eq, Structural)]
pub struct CoordinatorState {
    /// Exclusive end of the run.
    pub run_end: u128,
    /// Minimum channel delay, if there is a channel.
    pub minimum_lookahead_ns: Option<u64>,
    /// The previous round's exclusive horizon.
    pub previous_horizon_ns: Option<u128>,
    /// The number of the next round.
    pub round: u64,
}

/// What the coordinator does next.
#[derive(Clone, Copy, Debug, PartialEq, Eq, Structural)]
pub enum CoordinatorAction {
    /// No event is pending before the end of the run: the workers finish.
    Finish,
    /// Every LP executes its events strictly before `exclusive_horizon_ns`.
    RunRound {
        round: u64,
        frontier_ns: u64,
        exclusive_horizon_ns: u128,
        /// How far the horizon moved past the previous one (or past the frontier, in the first
        /// round).
        horizon_advance_ns: u128,
    },
}

/// The exclusive horizon of a round at `frontier_ns`.
pub open spec fn spec_exclusive_horizon(run_end: u128, lookahead: Option<u64>, frontier_ns: u64) -> u128 {
    let lookahead_end: int = match lookahead {
        None => TIME_AFTER_U64_MAX as int,
        Some(delay) => if frontier_ns + delay <= TIME_AFTER_U64_MAX {
            frontier_ns + delay
        } else {
            TIME_AFTER_U64_MAX as int
        },
    };
    if run_end <= lookahead_end {
        run_end
    } else {
        lookahead_end as u128
    }
}

/// The coordinator's decision for the workers' reported minima.
pub open spec fn spec_coordinator_step(state: CoordinatorState, minima: Seq<Option<u64>>) -> CoordinatorAction {
    match spec_frontier(minima) {
        None => CoordinatorAction::Finish,
        Some(frontier_ns) => if frontier_ns >= state.run_end {
            CoordinatorAction::Finish
        } else {
            let horizon = spec_exclusive_horizon(
                state.run_end,
                state.minimum_lookahead_ns,
                frontier_ns,
            );
            let previous: int = match state.previous_horizon_ns {
                Some(previous) => previous as int,
                None => frontier_ns as int,
            };
            CoordinatorAction::RunRound {
                round: state.round,
                frontier_ns,
                exclusive_horizon_ns: horizon,
                horizon_advance_ns: if horizon >= previous {
                    (horizon - previous) as u128
                } else {
                    0
                },
            }
        },
    }
}

/// The least reported minimum.
pub fn frontier(minima: &[Option<u64>]) -> (earliest: Option<u64>)
    ensures
        earliest == spec_frontier(minima@),
{
    let mut earliest: Option<u64> = None;
    let mut index: usize = 0;
    while index < minima.len()
        invariant
            index <= minima@.len(),
            earliest == spec_frontier(minima@.take(index as int)),
        decreases minima@.len() - index,
    {
        assert(minima@.take(index + 1).drop_last() =~= minima@.take(index as int));
        earliest = match (earliest, minima[index]) {
            (None, last) => last,
            (Some(rest), None) => Some(rest),
            (Some(rest), Some(last)) => Some(if rest <= last { rest } else { last }),
        };
        index = index + 1;
    }
    assert(minima@.take(minima@.len() as int) =~= minima@);
    earliest
}

/// Decides the next round from the workers' reported minima. A round covers the events strictly
/// before its exclusive horizon, which lies past the frontier and never past the end of the run
/// or the frontier plus the lookahead.
pub fn coordinator_step(state: &CoordinatorState, minima: &[Option<u64>]) -> (action: CoordinatorAction)
    ensures
        action == spec_coordinator_step(*state, minima@),
        action matches CoordinatorAction::RunRound { frontier_ns, exclusive_horizon_ns, .. } ==> {
            &&& frontier_ns < state.run_end
            &&& exclusive_horizon_ns <= state.run_end
            &&& state.minimum_lookahead_ns matches Some(delay) ==> exclusive_horizon_ns <= frontier_ns + delay
            &&& (state.minimum_lookahead_ns matches Some(delay) && delay > 0) ==> frontier_ns
                < exclusive_horizon_ns
        },
{
    let frontier_ns = match frontier(minima) {
        None => return CoordinatorAction::Finish,
        Some(frontier_ns) => frontier_ns,
    };
    if frontier_ns as u128 >= state.run_end {
        return CoordinatorAction::Finish;
    }
    let lookahead_end: u128 = match state.minimum_lookahead_ns {
        None => TIME_AFTER_U64_MAX,
        Some(delay) => {
            let end = frontier_ns as u128 + delay as u128;
            if end <= TIME_AFTER_U64_MAX {
                end
            } else {
                TIME_AFTER_U64_MAX
            }
        },
    };
    let horizon = if state.run_end <= lookahead_end {
        state.run_end
    } else {
        lookahead_end
    };
    let previous: u128 = match state.previous_horizon_ns {
        Some(previous) => previous,
        None => frontier_ns as u128,
    };
    CoordinatorAction::RunRound {
        round: state.round,
        frontier_ns,
        exclusive_horizon_ns: horizon,
        horizon_advance_ns: if horizon >= previous {
            horizon - previous
        } else {
            0
        },
    }
}

/// The state after a round with exclusive horizon `exclusive_horizon_ns` completes; the round
/// counter overflowing is a counter overflow.
pub fn finish_round(state: &CoordinatorState, exclusive_horizon_ns: u128) -> (next: Result<
    CoordinatorState,
    ExecutionError,
>)
    ensures
        state.round == u64::MAX ==> next == Err::<CoordinatorState, ExecutionError>(
            ExecutionError::CounterOverflow(NodeId(0)),
        ),
        state.round < u64::MAX ==> next == Ok::<CoordinatorState, ExecutionError>(
            CoordinatorState {
                previous_horizon_ns: Some(exclusive_horizon_ns),
                round: (state.round + 1) as u64,
                ..*state
            },
        ),
{
    match state.round.checked_add(1) {
        None => Err(ExecutionError::CounterOverflow(NodeId(0))),
        Some(round) => Ok(
            CoordinatorState { previous_horizon_ns: Some(exclusive_horizon_ns), round, ..*state },
        ),
    }
}

/// One executed LP's contribution to a round's totals: its node, events processed and messages
/// exchanged.
pub open spec fn spec_round_totals(executed: Seq<(NodeId, u64, u64)>) -> Result<(u64, u64), ExecutionError>
    decreases executed.len(),
{
    if executed.len() == 0 {
        Ok((0, 0))
    } else {
        match spec_round_totals(executed.drop_last()) {
            Err(error) => Err(error),
            Ok((events, messages)) => {
                let (node, more_events, more_messages) = executed.last();
                if events + more_events > u64::MAX || messages + more_messages > u64::MAX {
                    Err(ExecutionError::CounterOverflow(node))
                } else {
                    Ok(((events + more_events) as u64, (messages + more_messages) as u64))
                }
            },
        }
    }
}

/// A round's events processed and messages exchanged, summed over its executed LPs; a sum that
/// overflows is reported against the LP that overflowed it.
pub fn round_totals(executed: &[(NodeId, u64, u64)]) -> (totals: Result<(u64, u64), ExecutionError>)
    ensures
        totals == spec_round_totals(executed@),
{
    let mut events: u64 = 0;
    let mut messages: u64 = 0;
    let mut index: usize = 0;
    while index < executed.len()
        invariant
            index <= executed@.len(),
            spec_round_totals(executed@.take(index as int)) == Ok::<(u64, u64), ExecutionError>(
                (events, messages),
            ),
        decreases executed@.len() - index,
    {
        assert(executed@.take(index + 1).drop_last() =~= executed@.take(index as int));
        let (node, more_events, more_messages) = executed[index];
        let next_events = match events.checked_add(more_events) {
            None => {
                proof {
                    lemma_totals_stay_failed(executed@, index + 1);
                }
                return Err(ExecutionError::CounterOverflow(node));
            },
            Some(total) => total,
        };
        let next_messages = match messages.checked_add(more_messages) {
            None => {
                proof {
                    lemma_totals_stay_failed(executed@, index + 1);
                }
                return Err(ExecutionError::CounterOverflow(node));
            },
            Some(total) => total,
        };
        events = next_events;
        messages = next_messages;
        index = index + 1;
    }
    assert(executed@.take(executed@.len() as int) =~= executed@);
    Ok((events, messages))
}

proof fn lemma_totals_stay_failed(executed: Seq<(NodeId, u64, u64)>, upto: int)
    requires
        0 <= upto <= executed.len(),
        spec_round_totals(executed.take(upto)) is Err,
    ensures
        spec_round_totals(executed) == spec_round_totals(executed.take(upto)),
    decreases executed.len() - upto,
{
    if upto < executed.len() {
        assert(executed.take(upto + 1).drop_last() =~= executed.take(upto));
        lemma_totals_stay_failed(executed, upto + 1);
    } else {
        assert(executed.take(upto) =~= executed);
    }
}

} // verus!
