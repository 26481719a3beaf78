use days_executor::cuda::{
    assign_arena_offsets, assign_observation_offsets, checked_sum_usize, converged_capacity_floors,
    decode_arena, decode_control, decode_device_error, decode_event, decode_key, encode_control,
    event_arena_bytes,
    event_record, packet_record, record_less, take_words, validate_config, zero_words, CudaArena,
    CudaConfig, CudaError, CudaMemoryLayout, CudaPhaseProfile,
};
use days_executor::device_capacity::CapacityRetryRecord;
use days_executor::event::{Event, EventKey, EventKind, FlowId, NodeId, PayloadId};
use days_executor::image::{PacketDescriptor, PacketKind, TcpAckHeader, TcpDataHeader};
use days_executor::model::{TcpCongestionControl, TcpCubic, TcpPhase, TcpReno};

#[test]
fn cuda_decodes_tcp_capacity_arenas_with_metal_parity() {
    assert_eq!(decode_arena(11), CudaArena::TcpReceiverRanges);
    assert_eq!(decode_arena(12), CudaArena::TcpSegmentLedger);
    assert_eq!(decode_arena(13), CudaArena::RemoteStaging);
}

#[test]
fn cuda_capacity_fault_decodes_observed_demand() {
    let mut control = vec![0_u64; 20];
    control[0] = 1;
    control[1] = 12;
    control[2] = 7;
    control[3] = 8;
    control[19] = 9;

    assert_eq!(
        decode_device_error(&control),
        CudaError::CapacityExceeded {
            arena: CudaArena::TcpSegmentLedger,
            node: None,
            flow: Some(FlowId(7)),
            stream: None,
            capacity: 8,
            demand: 9,
        }
    );
}

#[test]
fn cuda_channel_capacity_fault_decodes_stream_identity() {
    let mut control = vec![0_u64; 20];
    control[0] = 1;
    control[1] = 8;
    control[2] = 73;
    control[3] = 8;
    control[19] = 9;

    assert_eq!(
        decode_device_error(&control),
        CudaError::CapacityExceeded {
            arena: CudaArena::ChannelInbox,
            node: None,
            flow: None,
            stream: Some(73),
            capacity: 8,
            demand: 9,
        }
    );

    control[0] = 142;
    assert_eq!(
        decode_device_error(&control),
        CudaError::DeviceExecution { code: 142, node: None },
        "a channel index must not be displayed as an LP for the order diagnostic",
    );
}

#[test]
fn cuda_terminal_failure_retains_every_capacity_retry() {
    let retry = CapacityRetryRecord {
        retry: 1,
        arena: CudaArena::Queue,
        node: Some(NodeId(3)),
        flow: None,
        stream: None,
        capacity: 0,
        demand: 1,
        grown_capacity: 2,
    };
    let error =
        CudaError::Unavailable("injected terminal failure".into()).with_retry_trace(&[retry]);

    assert_eq!(
        error,
        CudaError::RetryFailed {
            error: Box::new(CudaError::Unavailable("injected terminal failure".into())),
            capacity_retry_trace: vec![retry],
        }
    );
}

#[test]
fn failure_without_retries_is_returned_unchanged() {
    let error = CudaError::RoundLimitExceeded { capacity: 4 }.with_retry_trace(&[]);
    assert_eq!(error, CudaError::RoundLimitExceeded { capacity: 4 });
}

#[test]
fn device_error_codes_name_their_lp() {
    let mut control = vec![0_u64; 20];
    control[0] = 1;
    control[1] = 2;
    control[2] = 5;
    control[3] = 16;
    control[19] = 17;
    assert_eq!(
        decode_device_error(&control),
        CudaError::CapacityExceeded {
            arena: CudaArena::Queue,
            node: Some(NodeId(5)),
            flow: None,
            stream: None,
            capacity: 16,
            demand: 17,
        }
    );
    control[0] = 2;
    control[2] = u64::MAX;
    assert_eq!(
        decode_device_error(&control),
        CudaError::TransitionLimitExceeded { node: NodeId(0), capacity: 16 }
    );
    control[0] = 100;
    control[2] = 6;
    assert_eq!(decode_device_error(&control), CudaError::WfqArithmeticOverflow { node: NodeId(6) });
    control[0] = 77;
    assert_eq!(
        decode_device_error(&control),
        CudaError::DeviceExecution { code: 77, node: Some(NodeId(6)) }
    );
    assert_eq!(decode_arena(0), CudaArena::Fel);
    assert_eq!(decode_arena(99), CudaArena::Fel);
}

fn sample_event() -> Event {
    Event {
        key: EventKey { time_ns: 40, phase: 3, origin_node: NodeId(2), origin_seq: 9 },
        target: NodeId(5),
        kind: EventKind::RemoteArrival,
        payload: PayloadId(77),
    }
}

#[test]
fn event_records_round_trip_through_the_device_codec() {
    let packets = [
        PacketDescriptor {
            id: PayloadId(77),
            flow: FlowId(1),
            size_bytes: 1500,
            ecn_marked: true,
            kind: PacketKind::TcpData(TcpDataHeader {
                sequence: 3000,
                sent_time_ns: 12,
                retransmission: true,
            }),
        },
        PacketDescriptor {
            id: PayloadId(78),
            flow: FlowId(2),
            size_bytes: 64,
            ecn_marked: false,
            kind: PacketKind::TcpAck(TcpAckHeader {
                acknowledgment: 4500,
                acknowledged_bytes: 1500,
                echoed_sent_time_ns: 12,
            }),
        },
        PacketDescriptor {
            id: PayloadId(79),
            flow: FlowId(3),
            size_bytes: 9000,
            ecn_marked: false,
            kind: PacketKind::Data,
        },
    ];
    for packet in packets {
        let record = event_record(sample_event(), packet);
        assert_eq!(decode_event(&record), Ok((sample_event(), packet)));
    }
    let record = event_record(sample_event(), packets[0]);
    assert_eq!(record[10], 2 | (1 << 63));
    assert_eq!(&record[11..14], &[3000, 12, 1]);
}

#[test]
fn packet_records_keep_only_the_payload_and_packet_words() {
    let packet = PacketDescriptor {
        id: PayloadId(7),
        flow: FlowId(8),
        size_bytes: 9,
        ecn_marked: false,
        kind: PacketKind::Feedback,
    };
    assert_eq!(packet_record(packet), [0, 0, 0, 0, 0, 0, 7, 7, 8, 9, 1, 0, 0, 0]);
}

#[test]
fn malformed_records_report_their_device_fault_codes() {
    let mut record = event_record(
        sample_event(),
        PacketDescriptor {
            id: PayloadId(1),
            flow: FlowId(1),
            size_bytes: 1,
            ecn_marked: false,
            kind: PacketKind::Data,
        },
    );
    record[5] = 9;
    assert_eq!(decode_event(&record), Err(CudaError::DeviceExecution { code: 92, node: None }));
    record[5] = 0;
    record[10] = 4;
    assert_eq!(decode_event(&record), Err(CudaError::DeviceExecution { code: 93, node: None }));
    record[10] = 0;
    record[1] = 70_000;
    assert_eq!(decode_event(&record), Err(CudaError::DeviceExecution { code: 90, node: None }));
    assert_eq!(
        decode_key(&[1, 70_000, 0, 0]),
        Err(CudaError::DeviceExecution { code: 91, node: None })
    );
    assert!(record_less(&[1, 2, 3, 4], &[1, 2, 3, 5]));
    assert!(!record_less(&[1, 2, 3, 5], &[1, 2, 3, 5]));
    assert!(record_less(&[0, 9, 9, 9], &[1, 0, 0, 0]));
}

#[test]
fn controller_records_decode_reno_and_refuse_unknown_phases() {
    let words = [0, 1460, 2920, 65535, 1, 0, 0, 7];
    assert_eq!(
        decode_control(&words),
        Ok(TcpCongestionControl::Reno(TcpReno {
            mss_bytes: 1460,
            cwnd_bytes: 2920,
            ssthresh_bytes: 65535,
            phase: TcpPhase::CongestionAvoidance,
            duplicate_acks: 0,
            recovery_high_sequence: 0,
            ca_credit: 7,
        }))
    );
    assert_eq!(
        decode_control(&[0, 1, 1, 1, 5, 0, 0, 0]),
        Err(CudaError::DeviceExecution { code: 96, node: None })
    );
    assert_eq!(decode_control(&[2]), Err(CudaError::DeviceExecution { code: 97, node: None }));
}

#[test]
fn config_validation_refuses_empty_and_oversized_waves() {
    assert_eq!(validate_config(CudaConfig::default()), Ok(()));
    let config = CudaConfig { attempts_per_graph_wave: 0, ..CudaConfig::default() };
    assert_eq!(
        validate_config(config),
        Err(CudaError::Validation("attempts_per_graph_wave must be nonzero".into()))
    );
    let config = CudaConfig { attempts_per_graph_wave: 16_385, ..CudaConfig::default() };
    assert_eq!(
        validate_config(config),
        Err(CudaError::Validation(
            "attempts_per_graph_wave 16385 exceeds the supported maximum 16384".into()
        ))
    );
    let config = CudaConfig { round_threads_per_block: 0, ..CudaConfig::default() };
    assert_eq!(
        validate_config(config),
        Err(CudaError::Validation("round_threads_per_block must be nonzero".into()))
    );
}

#[test]
fn capacity_retries_grow_the_override_or_the_floor() {
    let mut config = CudaConfig { max_queue_packets_per_lp: Some(8), ..CudaConfig::default() };
    config.raise_capacity(CudaArena::Queue, 8, 20);
    assert_eq!(config.max_queue_packets_per_lp, Some(20));
    assert_eq!(config.capacity_floors.queue_packets_per_lp, 0);
    config.raise_capacity(CudaArena::Fel, 16, 40);
    assert_eq!(config.capacity_floors.fallback_fel_events_per_lp, 40);
    config.raise_capacity(CudaArena::Worklist, 3, 5);
    assert_eq!(config.capacity_floors.worklist_entries_total, 5);
    let floors = converged_capacity_floors(&config);
    assert_eq!(floors.queue_packets_per_lp, 20);
    assert_eq!(floors.fallback_fel_events_per_lp, 40);
    let outbox = CudaConfig { max_outbox_events: Some(9), ..CudaConfig::default() };
    let floors = converged_capacity_floors(&outbox);
    assert_eq!(floors.outbox_events_total, 9);
    assert_eq!(floors.remote_staging_events_per_lp, 9);
}

#[test]
fn memory_and_phase_totals_saturate() {
    let layout = CudaMemoryLayout {
        heap_arena_bytes: 100,
        stream_arena_bytes: 28,
        legacy_heap_arena_bytes: 200,
        ..CudaMemoryLayout::default()
    };
    assert_eq!(layout.total_event_arena_bytes(), 128);
    assert_eq!(layout.delta_from_legacy_heap_bytes(), -72);
    let full = CudaMemoryLayout {
        heap_arena_bytes: usize::MAX,
        stream_arena_bytes: 1,
        ..CudaMemoryLayout::default()
    };
    assert_eq!(full.total_event_arena_bytes(), usize::MAX);

    let mut profile = CudaPhaseProfile::default();
    profile.observe(0, 5);
    profile.observe(7, 6);
    profile.observe(7, 1);
    assert_eq!(profile.finalize_ns, 7);
    assert_eq!(profile.total_kernel_ns(), 12);
    profile.observe(3, u64::MAX);
    assert_eq!(profile.total_kernel_ns(), u64::MAX);
}

#[test]
fn plane_sizing_checks_every_product() {
    assert_eq!(event_arena_bytes(2, 4), Ok((2 * 14 + 4) * 8));
    assert!(matches!(event_arena_bytes(usize::MAX, 0), Err(CudaError::Validation(_))));
    assert_eq!(checked_sum_usize(&[1, 2, 3], "total"), Ok(6));
    assert_eq!(
        checked_sum_usize(&[usize::MAX, 1], "total"),
        Err(CudaError::Validation("total overflow usize".into()))
    );
    let mut next = 10;
    assert_eq!(take_words(&mut next, 3, 4), Ok(10));
    assert_eq!(next, 22);
    assert!(take_words(&mut next, usize::MAX, 2).is_err());
    assert_eq!(next, 22);
    assert_eq!(zero_words(0, 5), Ok(vec![0]));
    assert_eq!(zero_words(2, 3), Ok(vec![0; 6]));
}

#[test]
fn arena_headers_pack_offsets_in_slot_order() {
    let mut meta = vec![9_u64; 8];
    assert_eq!(assign_arena_offsets(&mut meta, &[3, 5]), Ok(8));
    assert_eq!(meta, vec![0, 3, 9, 9, 3, 5, 9, 9]);
    let mut observation = vec![9_u64; 24];
    assert_eq!(assign_observation_offsets(&mut observation, &[2, 4]), Ok(6));
    assert_eq!(&observation[0..12], &[0, 2, 9, 9, 0, 2, 9, 9, 0, 2, 9, 9]);
    assert_eq!(&observation[12..24], &[2, 4, 9, 9, 2, 4, 9, 9, 2, 4, 9, 9]);
}

#[test]
fn controller_records_round_trip_and_clear_stale_words() {
    let reno = TcpCongestionControl::Reno(TcpReno {
        mss_bytes: 1460,
        cwnd_bytes: 2920,
        ssthresh_bytes: 65535,
        phase: TcpPhase::FastRecovery,
        duplicate_acks: 3,
        recovery_high_sequence: 9,
        ca_credit: 7,
    });
    let mut words = [u64::MAX; 12];
    encode_control(reno, &mut words);
    assert_eq!(words, [0, 1460, 2920, 65535, 2, 3, 9, 7, 0, 0, 0, 0]);
    assert_eq!(decode_control(&words), Ok(reno));
    let cubic = TcpCongestionControl::Cubic(TcpCubic {
        mss_bytes: 1000,
        cwnd_scaled: 11,
        ssthresh_scaled: 12,
        phase: TcpPhase::SlowStart,
        duplicate_acks: 13,
        recovery_high_sequence: 14,
        w_max_scaled: 15,
        w_last_max_scaled: 16,
        epoch_start_ns: 17,
        srtt_ns: 18,
        k_ns: 19,
    });
    encode_control(cubic, &mut words);
    assert_eq!(words, [1, 1000, 11, 12, 0, 13, 14, 15, 16, 17, 18, 19]);
    assert_eq!(decode_control(&words), Ok(cubic));
}

#[test]
fn cuda_failures_read_as_diagnostics() {
    let capacity = |node, flow, stream| CudaError::CapacityExceeded {
        arena: CudaArena::Queue,
        node,
        flow,
        stream,
        capacity: 8,
        demand: 9,
    };
    assert_eq!(
        capacity(Some(NodeId(2)), Some(FlowId(3)), Some(4)).message(),
        "CUDA queue capacity of 8 records exceeded at stream 4; observed demand 9"
    );
    assert_eq!(
        capacity(Some(NodeId(2)), Some(FlowId(3)), None).message(),
        "CUDA queue capacity of 8 records exceeded at flow FlowId(3); observed demand 9"
    );
    assert_eq!(
        capacity(Some(NodeId(2)), None, None).message(),
        "CUDA queue capacity of 8 records exceeded at LP NodeId(2); observed demand 9"
    );
    assert_eq!(
        capacity(None, None, None).message(),
        "CUDA queue capacity of 8 records exceeded; observed demand 9"
    );
    let retry = CapacityRetryRecord {
        retry: 1,
        arena: CudaArena::Queue,
        node: Some(NodeId(2)),
        flow: None,
        stream: None,
        capacity: 8,
        demand: 9,
        grown_capacity: 16,
    };
    assert_eq!(
        CudaError::Validation("bad".to_string()).with_retry_trace(&[retry]).message(),
        "CUDA execution failed after 1 capacity retries: invalid CUDA image: bad"
    );
    assert_eq!(
        CudaError::Unavailable("no device".to_string()).message(),
        "CUDA backend unavailable: no device"
    );
    assert_eq!(
        CudaError::TransitionLimitExceeded { node: NodeId(5), capacity: 64 }.message(),
        "CUDA LP NodeId(5) exceeded the per-round transition continuation capacity of 64"
    );
    assert_eq!(
        CudaError::RoundLimitExceeded { capacity: 3 }.message(),
        "CUDA bounded graph waves exhausted their capacity of 3 rounds before termination"
    );
    assert_eq!(
        CudaError::WfqArithmeticOverflow { node: NodeId(1) }.message(),
        "CUDA WFQ arithmetic at LP NodeId(1) exceeds the exact 320-bit device limit; use Scalar or Cpu for this image"
    );
    assert_eq!(
        CudaError::DeviceExecution { code: 7, node: Some(NodeId(0)) }.message(),
        "CUDA transition kernel reported semantic error 7 at LP NodeId(0)"
    );
    assert_eq!(
        CudaError::DeviceExecution { code: 7, node: None }.message(),
        "CUDA transition kernel reported semantic error 7"
    );
}
