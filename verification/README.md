# days_executor

Verified core of the Days discrete-event executor: the fixed-width event records, the device
record codecs, capacity planning and retry state, readback compaction, and the deterministic
scheduling and placement decisions of the CPU and GPU executors. Every function in `src/` carries
a Verus contract, proved except for the few trusted wrappers around `String` appends and
`num-bigint` arithmetic; the diagnostic text of every library error is stated and proved. `app/`
holds the thin unverified edge (`Display` for those errors through their verified `message`
methods, and the float-valued utilization figure).

## Layout

- `src/event.rs`, `src/image.rs`, `src/model.rs`, `src/time.rs`: event keys, packet descriptors,
  the simulation image and exact integer-time helpers.
- `src/sort.rs`: a stable merge sort under a total preorder, with its stability law.
- `src/device_event_record.rs`, `src/cuda.rs`: the fixed-width device record codecs, device error
  decoding, capacity-retry configuration and planned memory accounting, with round-trip laws.
- `src/device_compaction.rs`, `src/cuda_readback.rs`, `src/run_summary.rs`: readback compaction
  plans, the decode of gathered queue records and of the run summary plane, and checked
  accumulation of run counters.
- `src/capacity_map.rs`, `src/device_capacity.rs`: canonical capacity lists, growth laws, caps,
  floors and warm starts.
- `src/rate_work.rs`, `src/device_sizing.rs`, `src/device_scheduler.rs`, `src/cuda_plan.rs`: the
  exact device plane sizing, rational-rate work bounds, and the host-side plan helpers;
  `src/sizing_text.rs` holds the sizing refusals' messages.
- `src/stream_topology.rs`: which device event streams each LP reads, the channel it sends on
  to each target LP, and the layout and contents of the stream state plane built from them.
- `src/drain_profile.rs`, `src/lane_packing.rs`, `src/aqm_trace.rs`, `src/dcqcn.rs`: device
  profile decoding, lane counters, AQM transition traces and the DCQCN controller.
- `src/cpu.rs`, `src/placement.rs`, `src/remote_order.rs`: the CPU pool configuration check,
  indexed LP frontier, round partitioning, pool-lifetime LP ownership and remote envelope order.
- `src/lp_plan.rs`: the split of an image into logical processes (initial events, held and
  pinned packets) with its refusals, and the laws that no packet or event is lost.
- `src/coordinator.rs`: the round-by-round decisions of the CPU coordinator (frontier, exclusive
  horizon, termination and round totals).

`tests/` exercises the library on concrete values.
