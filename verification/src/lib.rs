//! A verified model of a heap tracing / near-memory garbage collection
//! research toolkit: object headers and object models, synthetic heap
//! dumps, heap reachability, memory-system simulation (address mapping,
//! DRAM banks, TLBs, caches) and the DIMM interconnect used by the
//! near-memory GC simulator.

pub mod target_memory;
pub mod header;
pub mod memif;
pub mod memdump;
pub mod memdump_workload;
pub mod bitset;
pub mod object_model;
pub mod mark;
pub mod trace;
pub mod queue_trace;
pub mod distributed;
pub mod shape_cache;
pub mod analysis;
pub mod paper_analysis;
pub mod degrees;
pub mod cli;
pub mod simulate;
pub mod perm;
pub mod parse;
pub mod heapdump;
pub mod shuffle;
pub mod sanity;
