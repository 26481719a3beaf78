use days_executor::device_compaction::{CompactionEntity, CompactionPlan, CompactionShape};

fn ring(source_words: u64, capacity: u64, head: u64, count: u64) -> CompactionEntity {
    CompactionEntity {
        source_words,
        capacity,
        head,
        count,
    }
}

#[test]
fn destinations_are_the_exclusive_prefix_sum_of_the_device_written_counts() {
    let plan = CompactionPlan::new(
        "test",
        CompactionShape::Linear,
        2,
        vec![ring(0, 0, 0, 3), ring(6, 0, 0, 0), ring(8, 0, 0, 5)],
        32,
    )
    .expect("in-range plan");
    assert_eq!(plan.destination(0), 0);
    assert_eq!(plan.destination(1), 3);
    assert_eq!(plan.destination(2), 3);
    assert_eq!(plan.count(0), 3);
    assert_eq!(plan.count(1), 0);
    assert_eq!(plan.count(2), 5);
    assert_eq!(plan.entity_count(), 3);
    assert_eq!(plan.total_records(), 8);
    assert_eq!(plan.total_words(), 16);
    assert_eq!(plan.destination(3), 8);
    assert_eq!(plan.count(3), 0);
}

#[test]
fn the_gathered_buffer_reproduces_the_ring_decode_order() {
    let mut source = vec![0_u64; 12];
    for slot in 0..6_u64 {
        source[slot as usize * 2] = slot;
        source[slot as usize * 2 + 1] = 100 + slot;
    }
    let plan = CompactionPlan::new(
        "test",
        CompactionShape::Ring,
        2,
        vec![ring(0, 3, 2, 3), ring(6, 3, 1, 2)],
        12,
    )
    .expect("in-range plan");
    assert_eq!(
        plan.gather(&source),
        vec![2, 102, 0, 100, 1, 101, 4, 104, 5, 105]
    );
}

#[test]
fn a_linear_arena_gathers_its_prefix_without_consulting_the_ring_words() {
    let source: Vec<u64> = (0..10).collect();
    let plan = CompactionPlan::new(
        "test",
        CompactionShape::Linear,
        1,
        vec![ring(0, 4, 3, 2), ring(4, 4, 2, 1)],
        10,
    )
    .expect("in-range plan");
    assert_eq!(plan.gather(&source), vec![0, 1, 4]);
    assert_eq!(plan.argument_words(), vec![2, 1, 0]);
}

#[test]
fn the_plan_row_carries_the_device_words_and_the_destination_word_offset() {
    let plan = CompactionPlan::new(
        "test",
        CompactionShape::Ring,
        5,
        vec![ring(0, 4, 1, 3), ring(20, 2, 0, 2)],
        30,
    )
    .expect("in-range plan");
    assert_eq!(
        plan.plan_words(),
        vec![0, 4, 1, 3, 0, /* second row */ 20, 2, 0, 2, 15]
    );
    assert_eq!(plan.argument_words(), vec![2, 5, 1]);
}

#[test]
fn a_live_region_past_the_source_plane_is_refused_rather_than_truncated() {
    let error = CompactionPlan::new(
        "test",
        CompactionShape::Ring,
        2,
        vec![ring(0, 4, 0, 4), ring(8, 4, 0, 4)],
        12,
    )
    .expect_err("out-of-range plan");
    assert!(error.0.contains("past the 12-word source plane"), "{}", error.0);
}

#[test]
fn a_count_above_its_own_ring_capacity_is_refused() {
    let error =
        CompactionPlan::new("test", CompactionShape::Ring, 2, vec![ring(0, 3, 0, 4)], 64)
            .expect_err("over-full ring");
    assert!(
        error.0.contains("4 live records in a 3-record ring"),
        "{}",
        error.0
    );
}

#[test]
fn an_empty_arena_plans_a_zero_word_gather() {
    let plan = CompactionPlan::new("test", CompactionShape::Ring, 14, Vec::new(), 1)
        .expect("empty plan");
    assert_eq!(plan.total_records(), 0);
    assert_eq!(plan.total_words(), 0);
    assert_eq!(plan.entity_count(), 0);
    assert!(plan.plan_words().is_empty());
}

#[test]
fn a_zero_record_width_is_refused() {
    let error = CompactionPlan::new("test", CompactionShape::Linear, 0, vec![ring(0, 0, 0, 1)], 8)
        .expect_err("zero width");
    assert!(error.0.contains("nonzero record width"), "{}", error.0);
}
