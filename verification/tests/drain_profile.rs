use days_executor::drain_profile::{
    DrainProfileChannel, DrainProfileError, DrainProfileLayout, HeadVisitProfile,
    LookupIterationProfile, OutboundDegreeProfile, OverflowedTotal,
};

fn channel(source: usize, target: u64) -> DrainProfileChannel {
    DrainProfileChannel { source, target }
}

fn sample_layout() -> DrainProfileLayout {
    DrainProfileLayout::new(&[2, 1], &[channel(0, 5), channel(0, 3), channel(1, 0)])
        .expect("layout is valid")
}

fn sample_words(layout: &DrainProfileLayout) -> Vec<u64> {
    let mut words = layout.zeroed_words();
    layout.set_head_bin_for_testing(&mut words, 0, 1, 4);
    layout.set_head_bin_for_testing(&mut words, 0, 2, 1);
    layout.set_head_bin_for_testing(&mut words, 1, 1, 3);
    layout.set_channel_emissions_for_testing(&mut words, 0, 10);
    layout.set_channel_emissions_for_testing(&mut words, 1, 6);
    layout.set_channel_emissions_for_testing(&mut words, 2, 7);
    words
}

#[test]
fn layout_packs_flags_then_rows_then_channel_counters() {
    let layout = sample_layout();
    assert_eq!(layout.head_histogram_offset(), 2);
    assert_eq!(layout.channel_emissions_offset(), 5);
    assert_eq!(layout.words(), 8);
    assert_eq!(layout.zeroed_words(), vec![0; 8]);
    let empty = DrainProfileLayout::new(&[], &[]).expect("empty layout is valid");
    assert_eq!(empty.words(), 1);
}

#[test]
fn layout_refuses_missing_bins_stray_sources_and_duplicate_targets() {
    assert_eq!(DrainProfileLayout::new(&[1, 0], &[]), Err(DrainProfileError::ZeroHeadBin));
    assert_eq!(
        DrainProfileLayout::new(&[1], &[channel(0, 1), channel(3, 1)]),
        Err(DrainProfileError::ChannelSourceOutOfRange { channel: 1, source: 3, nodes: 1 })
    );
    assert_eq!(
        DrainProfileLayout::new(&[1, 1], &[channel(1, 4), channel(0, 2), channel(1, 4)]),
        Err(DrainProfileError::DuplicateTargets { source: 1 })
    );
    assert_eq!(
        DrainProfileLayout::new(&[usize::MAX], &[]),
        Err(DrainProfileError::HeadLayoutOverflow)
    );
}

#[test]
fn decode_reports_exact_histograms_and_degree_rows() {
    let layout = sample_layout();
    let profile = layout.decode(&sample_words(&layout)).expect("readback decodes");
    assert_eq!(profile.selected_events, 8);
    assert_eq!(profile.head_visits, 9);
    assert_eq!(
        profile.head_visit_histogram,
        vec![
            HeadVisitProfile { heads_visited: 1, selected_events: 7 },
            HeadVisitProfile { heads_visited: 2, selected_events: 1 },
        ]
    );
    assert_eq!(
        profile.outbound_degrees,
        vec![
            OutboundDegreeProfile {
                outbound_degree: 1,
                producer_count: 1,
                remote_emissions: 7,
                binary_search_lookups: 0,
                binary_search_iterations: 0,
            },
            OutboundDegreeProfile {
                outbound_degree: 2,
                producer_count: 1,
                remote_emissions: 16,
                binary_search_lookups: 16,
                binary_search_iterations: 32,
            },
        ]
    );
    assert_eq!(profile.remote_emissions, 23);
    assert_eq!(profile.binary_search_lookups, 16);
    assert_eq!(profile.binary_search_iterations, 32);
    assert_eq!(
        profile.lookup_iteration_histogram,
        vec![LookupIterationProfile { outbound_degree: 2, binary_search_iterations: 2, lookups: 16 }]
    );
}

#[test]
fn decode_of_zeroed_words_counts_only_producers() {
    let layout = sample_layout();
    let profile = layout.decode(&layout.zeroed_words()).expect("zeros decode");
    assert_eq!(profile.selected_events, 0);
    assert_eq!(profile.head_visits, 0);
    assert!(profile.head_visit_histogram.is_empty());
    assert!(profile.lookup_iteration_histogram.is_empty());
    assert_eq!(profile.outbound_degrees.len(), 2);
    assert_eq!(profile.outbound_degrees[0].producer_count, 1);
    assert_eq!(profile.outbound_degrees[1].remote_emissions, 0);
}

#[test]
fn decode_refuses_wrong_sizes_and_raised_flags() {
    let layout = sample_layout();
    assert_eq!(
        layout.decode(&[0; 7]),
        Err(DrainProfileError::ReadbackLength { actual: 7, expected: 8 })
    );
    let mut words = sample_words(&layout);
    layout.set_node_flag_for_testing(&mut words, 1, 9);
    assert_eq!(layout.decode(&words), Err(DrainProfileError::NodeFlag { node: 1, flag: 9 }));
}

#[test]
fn decode_checked_reconciles_each_lp_row() {
    let layout = sample_layout();
    let words = sample_words(&layout);
    let profile = layout.decode_checked(&words, &[5, 3]).expect("rows reconcile");
    assert_eq!(profile, layout.decode(&words).expect("readback decodes"));
    assert_eq!(
        layout.decode_checked(&words, &[5, 4]),
        Err(DrainProfileError::TransitionMismatch { node: 1, selected: 3, executed: 4 })
    );
    assert_eq!(
        layout.decode_checked(&words, &[8]),
        Err(DrainProfileError::TransitionTotals { actual: 1, expected: 2 })
    );
}

#[test]
fn drain_profile_refusals_read_as_diagnostics() {
    assert_eq!(
        DrainProfileError::ChannelSourceOutOfRange { channel: 1, source: 7, nodes: 3 }.message(),
        "channel 1 source 7 is outside 3 LPs"
    );
    assert_eq!(
        DrainProfileError::ReadbackLength { actual: 4, expected: 8 }.message(),
        "drain profile readback has 4 words, expected 8"
    );
    assert_eq!(
        DrainProfileError::TransitionMismatch { node: 2, selected: u128::MAX, executed: 5 }
            .message(),
        format!("drain profile LP 2 selected {} events but executed 5 transitions", u128::MAX)
    );
    assert_eq!(
        DrainProfileError::ZeroHeadBin.message(),
        "every LP needs at least the fallback-heap head bin"
    );
}

#[test]
fn each_overflowed_total_is_named_in_its_refusal() {
    let cases = [
        (OverflowedTotal::HeadHistogram, "head histogram total overflows u128"),
        (OverflowedTotal::SelectedEvents, "selected-event total overflows u128"),
        (OverflowedTotal::HeadVisitProduct, "head-visit product overflows u128"),
        (OverflowedTotal::HeadVisitTotal, "head-visit total overflows u128"),
        (OverflowedTotal::RemoteEmissions, "remote-emission total overflows u128"),
        (OverflowedTotal::Lookups, "lookup total overflows u128"),
        (OverflowedTotal::IterationProduct, "iteration product overflows u128"),
        (OverflowedTotal::IterationTotal, "iteration total overflows u128"),
        (OverflowedTotal::LookupHistogram, "lookup histogram total overflows u128"),
        (OverflowedTotal::ProfileTotal, "drain profile total overflows u128"),
    ];
    for (total, text) in cases {
        assert_eq!(DrainProfileError::CounterOverflow(total).message(), text);
    }
}
