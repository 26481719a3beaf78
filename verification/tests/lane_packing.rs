use days_executor::lane_packing::{
    decode_lane_packing_counters, DeviceLanePacking, LanePackingCounters, LanePackingDecodeError,
    LanePackingGroupCounters,
};

#[test]
fn device_codes_are_stable_and_labels_are_explicit() {
    assert_eq!(DeviceLanePacking::Unpacked.device_code(), 0);
    assert_eq!(DeviceLanePacking::Descending.device_code(), 1);
    assert_eq!(DeviceLanePacking::Ascending.device_code(), 2);
    assert_eq!(DeviceLanePacking::Unpacked.label(), "unpacked");
    assert_eq!(DeviceLanePacking::Descending.label(), "descending");
    assert_eq!(DeviceLanePacking::Ascending.label(), "ascending");
}

#[test]
fn default_packing_is_unpacked_and_only_it_is_unpacked() {
    assert_eq!(DeviceLanePacking::default(), DeviceLanePacking::Unpacked);
    assert!(!DeviceLanePacking::Unpacked.is_packed());
    assert!(DeviceLanePacking::Descending.is_packed());
    assert!(DeviceLanePacking::Ascending.is_packed());
}

fn group(lanes: u64, work: u64, maximum_lane_work: u64) -> LanePackingGroupCounters {
    LanePackingGroupCounters { lanes, work, maximum_lane_work }
}

#[test]
fn group_maxima_flatten_rounds_in_grid_order() {
    let counters = LanePackingCounters {
        rounds: vec![vec![group(32, 40, 3), group(5, 5, 1)], vec![], vec![group(7, 14, 9)]],
    };
    assert_eq!(counters.group_maxima(), vec![3, 1, 9]);
    assert_eq!(LanePackingCounters::default().group_maxima(), Vec::<u64>::new());
}

#[test]
fn lane_work_totals_are_exact_sums() {
    let counters = LanePackingCounters {
        rounds: vec![vec![group(32, 40, 3), group(5, 5, 1)], vec![group(7, 14, 9)]],
    };
    assert_eq!(counters.lane_work_totals(), (59, 32 * 3 + 5 + 63));
    assert_eq!(LanePackingCounters::default().lane_work_totals(), (0, 0));
}

#[test]
fn decoder_reads_groups_after_the_per_node_planes() {
    // Two nodes: four per-node planes take eight words; one group fits two nodes, so each round
    // record is three words.
    let mut words = vec![0_u64; 8];
    words.extend_from_slice(&[2, 11, 7]);
    words.extend_from_slice(&[0, 99, 99]);
    let counters = decode_lane_packing_counters(&words, 2, 2).expect("plane decodes");
    assert_eq!(counters.rounds, vec![vec![group(2, 11, 7)], vec![]]);
}

#[test]
fn decoder_splits_active_lanes_into_thirty_two_lane_groups() {
    let node_count = 40;
    let mut words = vec![0_u64; node_count * 4];
    words.extend_from_slice(&[33, 100, 4, 1, 1]);
    let counters = decode_lane_packing_counters(&words, node_count, 1).expect("plane decodes");
    assert_eq!(counters.rounds, vec![vec![group(32, 100, 4), group(1, 1, 1)]]);
}

#[test]
fn decoder_rejects_short_planes_and_overfull_rounds() {
    let words = vec![0_u64; 10];
    assert_eq!(
        decode_lane_packing_counters(&words, 2, 1),
        Err(LanePackingDecodeError::ShortPlane { words: 10, required: 11 })
    );
    let mut words = vec![0_u64; 8];
    words.extend_from_slice(&[1, 1, 1, 3, 0, 0]);
    assert_eq!(
        decode_lane_packing_counters(&words, 2, 2),
        Err(LanePackingDecodeError::ActiveExceedsNodes { round: 1, active: 3, node_count: 2 })
    );
    assert_eq!(
        decode_lane_packing_counters(&[], usize::MAX, 1),
        Err(LanePackingDecodeError::CounterBaseOverflow)
    );
}

#[test]
fn checked_totals_match_the_exact_totals_or_report_overflow() {
    let counters = LanePackingCounters { rounds: vec![vec![group(2, 10, 7)], vec![group(32, 5, 1)]] };
    assert_eq!(counters.checked_lane_work_totals(), Some((15, 46)));
    assert_eq!(counters.lane_work_totals(), (15, 46));
    let saturated = LanePackingCounters {
        rounds: vec![vec![group(u64::MAX, 0, u64::MAX), group(u64::MAX, 0, u64::MAX)]],
    };
    assert_eq!(saturated.checked_lane_work_totals(), None);
}

#[test]
fn lane_packing_refusals_read_as_diagnostics() {
    assert_eq!(
        LanePackingDecodeError::ShortPlane { words: 3, required: 9 }.message(),
        "lane-packing counter plane has 3 words but 9 are required"
    );
    assert_eq!(
        LanePackingDecodeError::ActiveExceedsNodes { round: 1, active: 6, node_count: 4 }.message(),
        "lane-packing round 1 records 6 active LPs for 4 nodes"
    );
    assert_eq!(
        LanePackingDecodeError::ActiveCountOverflow { round: 0 }.message(),
        "lane-packing active count does not fit usize"
    );
}
