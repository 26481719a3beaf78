use days_executor::device_capacity::{
    bound_derived_capacity, cap_derived_capacity, grown_capacity, grown_capacity_with_slack,
    grown_ledger_capacity, ledger_capacity_from_high_water, observed_ledger_high_water,
    raise_cap_or_floor, raise_override_cap_or_floor, CapacityWarmStart, ChannelCapacityFloors,
    DeviceCapacityFloors, TcpCapacityFloors, TCP_LEDGER_OCCUPANCY_SLACK_FACTOR,
    TCP_LEDGER_OCCUPANCY_SLACK_RECORDS, TCP_LEDGER_RETRY_SLACK, TCP_RECEIVER_RETRY_SLACK,
    channel_capacity_distribution, ChannelStreamCapacityLevel,
};
use days_executor::event::FlowId;

fn retry_capacity_sequence(derived: usize, initial_cap: usize, resident: usize) -> Vec<usize> {
    let mut cap = Some(initial_cap);
    let mut floor = 0;
    (0..5)
        .map(|_| {
            let capacity = bound_derived_capacity(derived, cap, floor, resident);
            let demand = capacity.saturating_add(1);
            let grown = grown_capacity(capacity, demand);
            raise_cap_or_floor(&mut cap, &mut floor, capacity, grown);
            capacity
        })
        .collect()
}

#[test]
fn derived_capacity_cap_never_excludes_resident_records() {
    assert_eq!(cap_derived_capacity(100, None, 7), 100);
    assert_eq!(cap_derived_capacity(100, Some(12), 7), 12);
    assert_eq!(cap_derived_capacity(100, Some(3), 7), 7);
    assert_eq!(cap_derived_capacity(1, Some(0), 0), 0);
}

#[test]
fn retry_floor_can_raise_a_capped_derived_capacity() {
    assert_eq!(bound_derived_capacity(100, Some(3), 12, 7), 12);
}

#[test]
fn retry_growth_doubles_reported_demand_and_saturates_safely() {
    assert_eq!(grown_capacity(0, 1), 2);
    assert_eq!(grown_capacity(8, 9), 18);
    assert_eq!(grown_capacity(8, 12), 24);
    assert_eq!(grown_capacity(usize::MAX, usize::MAX), usize::MAX);
}

#[test]
fn reported_demand_supports_tight_additive_retry_slack() {
    assert_eq!(TCP_RECEIVER_RETRY_SLACK, 64);
    assert_eq!(
        grown_capacity_with_slack(4_096, 4_097, TCP_LEDGER_RETRY_SLACK),
        4_353
    );
    assert_eq!(
        grown_capacity_with_slack(usize::MAX, usize::MAX, 256),
        usize::MAX
    );
}

#[test]
fn tcp_ledger_retry_grows_only_the_faulting_flow() {
    let mut floors = TcpCapacityFloors::default();

    assert_eq!(floors.ledger(FlowId(7), 520), Some(520));
    assert_eq!(floors.ledger(FlowId(8), 520), Some(520));
    assert_eq!(floors.ledger(FlowId(9), 521), Some(521));
    assert!(floors.raise_ledger(FlowId(7), 520, 777));
    assert_eq!(floors.ledger(FlowId(7), 520), Some(777));
    assert_eq!(
        floors.ledger(FlowId(8), 520),
        Some(520),
        "an equivalent flow must NOT inherit the faulting flow's growth"
    );
    assert_eq!(floors.ledger(FlowId(9), 521), Some(521));

    assert!(floors.raise_ledger(FlowId(8), 520, 1_034));
    assert_eq!(floors.ledger(FlowId(7), 520), Some(777));
    assert_eq!(floors.ledger(FlowId(8), 520), Some(1_034));
    assert_eq!(floors.ledger(FlowId(9), 521), Some(521));
    assert_eq!(floors.ledger(FlowId(7), 521), None);
    assert!(!floors.raise_ledger(FlowId(10), 520, 777));
    // A stale capacity — one that is neither the base nor the current floor — is rejected.
    assert!(!floors.raise_ledger(FlowId(7), 520, 900));

    assert_eq!(floors.receiver(FlowId(9), 64), Some(64));
    assert!(floors.raise_receiver(FlowId(9), 64, 129));
    assert_eq!(floors.receiver(FlowId(9), 64), Some(129));
}

#[test]
fn the_occupancy_vector_sizes_every_flow_in_one_replan() {
    let mut floors = TcpCapacityFloors::default();
    for flow in 0..6 {
        assert_eq!(floors.ledger(FlowId(flow), 520), Some(520));
    }
    // The vector's seventh entry belongs to a flow this plan never sized.
    let high_water = [2_u32, 11_058, 520, 0, 63, 4_474, 9_999];
    assert_eq!(floors.raise_ledger_from_occupancy(&high_water), 6);

    assert_eq!(floors.ledger(FlowId(0), 520), Some(520)); // 8*2+8 = 24 < the derived floor
    assert_eq!(floors.ledger(FlowId(1), 520), Some(88_472));
    assert_eq!(floors.ledger(FlowId(2), 520), Some(4_168));
    assert_eq!(floors.ledger(FlowId(3), 520), Some(520));
    assert_eq!(floors.ledger(FlowId(4), 520), Some(520)); // 8*63+8 = 512 < 520
    assert_eq!(floors.ledger(FlowId(5), 520), Some(35_800));

    // Floors only ever rise: a second, smaller vector cannot shrink a plan.
    assert_eq!(floors.raise_ledger_from_occupancy(&[0; 6]), 0);
    assert_eq!(floors.ledger(FlowId(1), 520), Some(88_472));
    assert_eq!(floors.ledger(FlowId(5), 520), Some(35_800));

    // A short vector reads as zero rather than panicking.
    assert_eq!(floors.raise_ledger_from_occupancy(&[]), 0);
}

#[test]
fn ledger_growth_uses_the_vector_and_keeps_strict_progress() {
    assert_eq!(TCP_LEDGER_OCCUPANCY_SLACK_FACTOR, 8);
    assert_eq!(TCP_LEDGER_OCCUPANCY_SLACK_RECORDS, 8);
    assert_eq!(ledger_capacity_from_high_water(0), 8);
    assert_eq!(ledger_capacity_from_high_water(11_058), 88_472);
    assert_eq!(ledger_capacity_from_high_water(usize::MAX), usize::MAX);

    assert_eq!(grown_ledger_capacity(520, 521, Some(520)), 4_168);
    assert_eq!(grown_ledger_capacity(4_632, 4_633, Some(4_632)), 37_064);
    assert_eq!(grown_ledger_capacity(520, 521, Some(0)), 521);
    assert_eq!(grown_ledger_capacity(520, 521, Some(60)), 521);
    assert_eq!(grown_ledger_capacity(520, 521, None), 777);
    assert_eq!(
        grown_ledger_capacity(usize::MAX, usize::MAX, Some(usize::MAX)),
        usize::MAX
    );
}

#[test]
fn the_faulting_flows_own_observation_is_read_out_of_the_vector() {
    let vector = [3_u32, 11_058, 7];
    assert_eq!(
        observed_ledger_high_water(Some(&vector), Some(FlowId(1))),
        Some(11_058)
    );
    assert_eq!(observed_ledger_high_water(Some(&vector), None), None);
    assert_eq!(observed_ledger_high_water(None, Some(FlowId(1))), None);
    assert_eq!(
        observed_ledger_high_water(Some(&vector), Some(FlowId(9))),
        Some(0)
    );
}

#[test]
fn channel_retry_floor_is_deterministic_for_the_fault_sequence() {
    fn replay(faults: &[(usize, usize)]) -> ChannelCapacityFloors {
        let bases = [8, 8, 12, 8];
        let mut floors = ChannelCapacityFloors::default();
        for &(stream, demand) in faults {
            let capacity = floors
                .channel(stream, bases[stream])
                .expect("the stream base must remain stable");
            let grown = grown_capacity(capacity, demand);
            assert!(floors.raise(stream, capacity, grown));
        }
        floors
    }

    let faults = [(2, 13), (0, 9), (2, 27), (3, 10)];
    assert_eq!(replay(&faults), replay(&faults));
}

#[test]
fn channel_retry_grows_only_the_faulting_stream() {
    let bases = [8, 8, 12, 8];
    let mut floors = ChannelCapacityFloors::default();
    let before = bases
        .iter()
        .copied()
        .enumerate()
        .map(|(stream, base)| floors.channel(stream, base).unwrap())
        .collect::<Vec<_>>();

    assert!(floors.raise(1, before[1], 18));
    let after = bases
        .iter()
        .copied()
        .enumerate()
        .map(|(stream, base)| floors.channel(stream, base).unwrap())
        .collect::<Vec<_>>();

    assert_eq!(before, vec![8, 8, 12, 8]);
    assert_eq!(after, vec![8, 18, 12, 8]);
    assert_eq!(&after[..1], &before[..1]);
    assert_eq!(&after[2..], &before[2..]);
}

#[test]
fn channel_retry_rejects_unknown_or_changed_stream_state() {
    let mut floors = ChannelCapacityFloors::default();
    assert_eq!(floors.channel(4, 8), Some(8));
    assert!(!floors.raise(3, 8, 18));
    assert!(!floors.raise(4, 9, 18));
    assert_eq!(floors.channel(4, 9), None);
}

#[test]
fn a_converged_snapshot_replays_the_capacity_the_chain_ended_on() {
    let mut channels = ChannelCapacityFloors::default();
    let mut tcp = TcpCapacityFloors::default();

    for (stream, base) in [(0, 8), (1, 8), (2, 12)] {
        assert_eq!(channels.channel(stream, base), Some(base));
    }
    for flow in 0..3 {
        assert_eq!(tcp.receiver(FlowId(flow), 64), Some(64));
        assert_eq!(tcp.ledger(FlowId(flow), 520), Some(520));
    }

    assert!(channels.raise(1, 8, 18));
    assert!(tcp.raise_receiver(FlowId(0), 64, 129));
    assert!(tcp.raise_ledger(FlowId(2), 520, 4_168));
    assert_eq!(tcp.raise_ledger_from_occupancy(&[2, 11_058, 520]), 2);

    let snapshot = CapacityWarmStart {
        floors: DeviceCapacityFloors {
            queue_packets_per_lp: 96,
            ..DeviceCapacityFloors::default()
        },
        channel_events_by_stream: channels.converged_capacities(),
        tcp_receiver_ranges_by_base: tcp.converged_receiver_ranges(),
        tcp_ledger_segments_by_flow: tcp.converged_ledger_segments(),
    };
    assert!(!snapshot.is_empty());
    assert_eq!(snapshot.channel_events_by_stream, vec![(1, 18)]);
    assert_eq!(snapshot.tcp_receiver_ranges_by_base, vec![(64, 129)]);
    assert_eq!(
        snapshot.tcp_ledger_segments_by_flow,
        vec![(0, 24), (1, 88_472), (2, 4_168)]
    );

    let mut replayed_channels =
        ChannelCapacityFloors::warm_started(&snapshot.channel_events_by_stream);
    let mut replayed_tcp = TcpCapacityFloors::warm_started(
        &snapshot.tcp_receiver_ranges_by_base,
        &snapshot.tcp_ledger_segments_by_flow,
        3,
    );
    assert_eq!(replayed_channels.channel(0, 8), Some(8));
    assert_eq!(replayed_channels.channel(1, 8), Some(18));
    assert_eq!(replayed_channels.channel(2, 12), Some(12));
    assert_eq!(replayed_tcp.receiver(FlowId(0), 64), Some(129));
    assert_eq!(replayed_tcp.receiver(FlowId(2), 64), Some(129));
    assert_eq!(replayed_tcp.ledger(FlowId(0), 520), Some(520));
    assert_eq!(replayed_tcp.ledger(FlowId(1), 520), Some(88_472));
    assert_eq!(replayed_tcp.ledger(FlowId(2), 520), Some(4_168));

    assert_eq!(
        replayed_channels.converged_capacities(),
        snapshot.channel_events_by_stream
    );
    assert_eq!(
        replayed_tcp.converged_receiver_ranges(),
        snapshot.tcp_receiver_ranges_by_base
    );
    assert_eq!(
        replayed_tcp.converged_ledger_segments(),
        snapshot.tcp_ledger_segments_by_flow
    );

    assert!(replayed_channels.raise(1, 18, 40));
    assert!(!replayed_channels.raise(1, 18, 40));
    assert!(replayed_tcp.raise_ledger(FlowId(1), 88_472, 90_000));
    assert!(!replayed_tcp.raise_ledger(FlowId(1), 88_472, 90_000));
}

#[test]
fn warm_start_floors_merge_lane_by_lane_and_never_shrink() {
    let caller = DeviceCapacityFloors {
        queue_packets_per_lp: 40,
        observation_events: 7,
        ..DeviceCapacityFloors::default()
    };
    let hint = DeviceCapacityFloors {
        queue_packets_per_lp: 12,
        worklist_entries_total: 900,
        ..DeviceCapacityFloors::default()
    };
    let merged = caller.merged_with(hint);
    assert_eq!(merged.queue_packets_per_lp, 40);
    assert_eq!(merged.observation_events, 7);
    assert_eq!(merged.worklist_entries_total, 900);
    assert_eq!(merged, hint.merged_with(caller));
    assert_eq!(
        DeviceCapacityFloors::default().merged_with(DeviceCapacityFloors::default()),
        DeviceCapacityFloors::default()
    );
}

#[test]
fn warm_start_lists_are_canonicalized_by_key_and_maximum() {
    let mut floors = ChannelCapacityFloors::warm_started(&[(5, 12), (1, 3), (5, 40), (1, 2)]);
    assert_eq!(floors.converged_capacities(), vec![(1, 3), (5, 40)]);
    assert_eq!(floors.channel(1, 2), Some(3));
    assert_eq!(floors.channel(5, 64), Some(64));

    let mut tcp = TcpCapacityFloors::warm_started(&[], &[(3, 8), (0, 5), (3, 9)], 4);
    assert_eq!(tcp.converged_ledger_segments(), vec![(0, 5), (3, 9)]);
    assert_eq!(tcp.ledger(FlowId(3), 1), Some(9));
    assert_eq!(tcp.ledger(FlowId(2), 1), Some(1));
    assert!(
        TcpCapacityFloors::warm_started(&[], &[], 8)
            .converged_ledger_segments()
            .is_empty()
    );
    assert!(CapacityWarmStart::default().is_empty());

    let mut narrow = TcpCapacityFloors::warm_started(&[], &[(0, 5), (usize::MAX, 9)], 2);
    assert_eq!(narrow.converged_ledger_segments(), vec![(0, 5)]);
    assert_eq!(narrow.ledger(FlowId(1), 3), Some(3));
}

#[test]
fn retry_raises_the_effective_capacity_without_discarding_caps() {
    let mut override_capacity = None;
    let mut cap = Some(8);
    let mut floor = 0;
    raise_override_cap_or_floor(&mut override_capacity, &mut cap, &mut floor, 8, 18);
    assert_eq!(override_capacity, None);
    assert_eq!(cap, Some(18));
    assert_eq!(floor, 18);

    cap = None;
    raise_cap_or_floor(&mut cap, &mut floor, 8, 24);
    assert_eq!(cap, None);
    assert_eq!(floor, 24);

    override_capacity = Some(4);
    cap = Some(8);
    raise_override_cap_or_floor(&mut override_capacity, &mut cap, &mut floor, 4, 32);
    assert_eq!(override_capacity, Some(32));
    assert_eq!(cap, Some(8));
    assert_eq!(floor, 24);

    override_capacity = None;
    cap = Some(2_048);
    floor = 0;
    raise_override_cap_or_floor(&mut override_capacity, &mut cap, &mut floor, 49, 100);
    assert_eq!(cap, Some(2_048));
    assert_eq!(floor, 100);
}

#[test]
fn retry_strictly_grows_when_the_derived_capacity_ties_the_cap() {
    assert_eq!(
        retry_capacity_sequence(2_048, 2_048, 0),
        vec![2_048, 4_098, 8_198, 16_398, 32_798]
    );
}

#[test]
fn retry_strictly_grows_when_the_resident_capacity_ties_the_cap() {
    assert_eq!(
        retry_capacity_sequence(100, 512, 512),
        vec![512, 1_026, 2_054, 4_110, 8_222]
    );
}

#[test]
fn capacity_distribution_counts_each_level_once_in_ascending_order() {
    assert_eq!(
        channel_capacity_distribution(&[12, 8, 12, 8, 8, 40]),
        vec![
            ChannelStreamCapacityLevel { capacity: 8, stream_count: 3 },
            ChannelStreamCapacityLevel { capacity: 12, stream_count: 2 },
            ChannelStreamCapacityLevel { capacity: 40, stream_count: 1 },
        ]
    );
    assert!(channel_capacity_distribution(&[]).is_empty());
}

#[test]
fn merged_floors_are_commutative_and_keep_every_lane_maximum() {
    let a = DeviceCapacityFloors { fallback_fel_events_per_lp: 3, outbox_events_total: 9, ..DeviceCapacityFloors::default() };
    let b = DeviceCapacityFloors { fallback_fel_events_per_lp: 5, outbox_events_total: 1, ..DeviceCapacityFloors::default() };
    let merged = a.merged_with(b);
    assert_eq!(merged, b.merged_with(a));
    assert_eq!(merged.fallback_fel_events_per_lp, 5);
    assert_eq!(merged.outbox_events_total, 9);
    assert_eq!(a.merged_with(a), a);
}

#[test]
fn warm_start_from_converged_ledger_segments_gives_them_back() {
    let converged = vec![(0, 5), (2, 7), (3, 9)];
    let tcp = TcpCapacityFloors::warm_started(&[], &converged, 4);
    assert_eq!(tcp.converged_ledger_segments(), converged);
    let again = TcpCapacityFloors::warm_started(&[], &tcp.converged_ledger_segments(), 4);
    assert_eq!(again.converged_ledger_segments(), converged);
}

#[test]
fn a_flow_beyond_every_recorded_base_is_not_raised() {
    let mut tcp = TcpCapacityFloors::warm_started(&[], &[(0, 5)], 2);
    assert_eq!(tcp.ledger(FlowId(1), 4), Some(4));
    assert!(!tcp.raise_ledger(FlowId(u64::MAX), 4, 9));
    assert!(!tcp.raise_ledger(FlowId(7), 4, 9));
    assert_eq!(tcp.converged_ledger_segments(), vec![(0, 5)]);
    assert!(tcp.raise_ledger(FlowId(1), 4, 9));
    assert_eq!(tcp.converged_ledger_segments(), vec![(0, 5), (1, 9)]);
}
