//! Exact execution contracts for the Days discrete-event executor.
//!
//! Fixed-width event records, exact integer-time helpers, device capacity planning, record codecs
//! and the deterministic scheduling structures shared by the CPU and GPU executors.

pub mod sort;
pub mod event;
pub mod time;
pub mod model;
pub mod image;
pub mod dcqcn;
pub mod device_event_record;
pub mod capacity_map;
pub mod device_compaction;
pub mod device_capacity;
pub mod lane_packing;
pub mod drain_profile;
pub mod cuda;
pub mod cpu;
pub mod aqm_trace;
pub mod rate_work;
pub mod device_sizing;
pub mod sizing_text;
pub mod device_scheduler;
pub mod cuda_plan;
pub mod cuda_readback;
pub mod remote_order;
pub mod placement;
pub mod lp_plan;
pub mod stream_topology;
pub mod run_summary;
pub mod coordinator;
