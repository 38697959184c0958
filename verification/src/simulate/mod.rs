//! Memory-system and interconnect models used by the GC simulators.

pub mod memory;
pub mod lru_cache;
pub mod cache;
pub mod data_cache;
pub mod topology;
pub mod network;
pub mod ideal_trace_utilization;
pub mod activity;
pub mod nmpgc;
