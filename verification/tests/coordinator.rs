use days_executor::coordinator::{
    coordinator_step, finish_round, frontier, round_totals, run_end, CoordinatorAction,
    CoordinatorState, TIME_AFTER_U64_MAX,
};
use days_executor::cpu::ExecutionError;
use days_executor::event::NodeId;

fn state(run_end: u128, lookahead: Option<u64>) -> CoordinatorState {
    CoordinatorState {
        run_end,
        minimum_lookahead_ns: lookahead,
        previous_horizon_ns: None,
        round: 0,
    }
}

#[test]
fn the_run_ends_at_the_requested_horizon_or_just_after_the_stop_time() {
    assert_eq!(run_end(100, None), 101);
    assert_eq!(run_end(100, Some(40)), 40);
    assert_eq!(run_end(100, Some(500)), 101);
    assert_eq!(run_end(u64::MAX, None), TIME_AFTER_U64_MAX);
}

#[test]
fn the_frontier_is_the_least_pending_minimum() {
    assert_eq!(frontier(&[None, Some(9), Some(4), None]), Some(4));
    assert_eq!(frontier(&[None, None]), None);
}

#[test]
fn a_round_runs_up_to_the_frontier_plus_the_lookahead() {
    let start = state(1_000, Some(30));
    let action = coordinator_step(&start, &[Some(50), None, Some(70)]);
    assert_eq!(
        action,
        CoordinatorAction::RunRound {
            round: 0,
            frontier_ns: 50,
            exclusive_horizon_ns: 80,
            horizon_advance_ns: 30,
        }
    );
    let next = finish_round(&start, 80).unwrap();
    assert_eq!(next.previous_horizon_ns, Some(80));
    assert_eq!(next.round, 1);
    let action = coordinator_step(&next, &[Some(85), Some(200)]);
    assert_eq!(
        action,
        CoordinatorAction::RunRound {
            round: 1,
            frontier_ns: 85,
            exclusive_horizon_ns: 115,
            horizon_advance_ns: 35,
        }
    );
}

#[test]
fn the_horizon_never_passes_the_end_of_the_run() {
    let action = coordinator_step(&state(60, Some(30)), &[Some(50)]);
    assert_eq!(
        action,
        CoordinatorAction::RunRound {
            round: 0,
            frontier_ns: 50,
            exclusive_horizon_ns: 60,
            horizon_advance_ns: 10,
        }
    );
    let unbounded = coordinator_step(&state(TIME_AFTER_U64_MAX, None), &[Some(7)]);
    assert_eq!(
        unbounded,
        CoordinatorAction::RunRound {
            round: 0,
            frontier_ns: 7,
            exclusive_horizon_ns: TIME_AFTER_U64_MAX,
            horizon_advance_ns: TIME_AFTER_U64_MAX - 7,
        }
    );
}

#[test]
fn the_pool_finishes_when_nothing_is_pending_before_the_end() {
    assert_eq!(coordinator_step(&state(100, Some(5)), &[None, None]), CoordinatorAction::Finish);
    assert_eq!(coordinator_step(&state(100, Some(5)), &[Some(100)]), CoordinatorAction::Finish);
}

#[test]
fn the_round_counter_and_totals_refuse_overflow() {
    let mut last = state(100, Some(5));
    last.round = u64::MAX;
    assert_eq!(finish_round(&last, 10), Err(ExecutionError::CounterOverflow(NodeId(0))));
    assert_eq!(round_totals(&[(NodeId(1), 3, 4), (NodeId(2), 5, 6)]), Ok((8, 10)));
    assert_eq!(
        round_totals(&[(NodeId(1), u64::MAX, 0), (NodeId(2), 1, 0)]),
        Err(ExecutionError::CounterOverflow(NodeId(2)))
    );
}
