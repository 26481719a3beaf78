use days_executor::cpu::ExecutionError;
use days_executor::event::NodeId;
use days_executor::run_summary::{add_summary_checked, RunSummary};

#[test]
fn lp_counters_add_into_the_run_total() {
    let mut total = RunSummary { sourced_packets: 3, dropped_bytes: 10, ..RunSummary::default() };
    let local = RunSummary { sourced_packets: 4, feedback_bytes: 7, ..RunSummary::default() };
    assert_eq!(add_summary_checked(&mut total, local, NodeId(2)), Ok(()));
    assert_eq!(
        total,
        RunSummary {
            sourced_packets: 7,
            dropped_bytes: 10,
            feedback_bytes: 7,
            ..RunSummary::default()
        }
    );
}

#[test]
fn an_overflowing_counter_stops_the_sum_at_that_counter() {
    let mut total = RunSummary {
        sourced_packets: 1,
        received_packets: u128::MAX,
        feedback_bytes: 5,
        ..RunSummary::default()
    };
    let local = RunSummary {
        sourced_packets: 2,
        received_packets: 1,
        feedback_bytes: 6,
        ..RunSummary::default()
    };
    assert_eq!(
        add_summary_checked(&mut total, local, NodeId(9)),
        Err(ExecutionError::CounterOverflow(NodeId(9)))
    );
    assert_eq!(total.sourced_packets, 3);
    assert_eq!(total.received_packets, u128::MAX);
    assert_eq!(total.feedback_bytes, 5);
}
