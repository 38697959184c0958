use vstd::prelude::*;
use crate::simulate::memory::{address_channel, address_dimm, address_rank};

verus! {

/// Which object model lays objects out in memory.
#[derive(Clone, Copy, PartialEq, Eq, Debug, Structural)]
pub enum ObjectModelChoice {
    OpenJDK,
    OpenJDKAE,
    Bidirectional,
    BidirectionalFallback,
}

/// Which tracing loop drives the transitive closure.
#[derive(Clone, Copy, PartialEq, Eq, Debug, Structural)]
pub enum TracingLoopChoice {
    EdgeSlot,
    EdgeObjref,
    NodeObjref,
    DistributedNodeObjref,
    ShapeCache,
    WP,
    WP2,
    WPEdgeSlot,
    WPEdgeSlotDual,
}

/// Top-level arguments: the heap dumps to process, the object model and a command.
#[derive(Debug)]
pub struct Args {
    pub paths: Vec<String>,
    pub object_model: ObjectModelChoice,
    pub command: Option<Commands>,
}

/// Arguments of the `trace` command.
#[derive(Debug, Clone, Copy)]
pub struct TraceArgs {
    pub tracing_loop: TracingLoopChoice,
    pub iterations: usize,
    pub shape_cache_size: usize,
    /// Number of worker threads to use, if the tracing loop supports parallelism.
    pub threads: usize,
    /// Work packet buffer capacity.
    pub wp_capacity: usize,
}

/// Arguments of the `analyze` command.
#[derive(Debug, Clone, Copy)]
pub struct AnalysisArgs {
    pub owner_shift: usize,
    pub log_num_threads: usize,
    pub rle: bool,
    pub eager_load: bool,
}

/// Arguments of the `depth` command.
#[derive(Debug, Clone)]
pub struct DepthArgs {
    pub output_file: String,
}

/// Arguments of the `paper-analyze` command.
#[derive(Debug, Clone)]
pub struct PaperAnalysisArgs {
    pub analysis_name: PaperAnalysisChoice,
    pub output_path: String,
}

/// The analyses behind `paper-analyze`.
#[derive(Clone, Copy, PartialEq, Eq, Debug, Structural)]
pub enum PaperAnalysisChoice {
    ShapeDemographic,
    EdgeChunks,
    Degrees,
}

/// Simulation arguments.
#[derive(Debug, Clone)]
pub struct SimulationArgs {
    pub processors: usize,
    pub architecture: SimulationArchitectureChoice,
    pub trace_path: Option<String>,
    pub topology: SimulationMemoryLinkTopology,
    pub mem_config: SimulationMemoryConfiguration,
}

/// The simulated GC architecture.
#[derive(Clone, Copy, PartialEq, Eq, Debug, Structural)]
pub enum SimulationArchitectureChoice {
    IdealTraceUtilization,
    NMPGC,
}

/// A memory configuration: channels (C), DIMMs per channel (D) and ranks per DIMM (R).
#[derive(Clone, Copy, Debug, PartialEq, Eq, Hash, Structural)]
pub enum SimulationMemoryConfiguration {
    C1D1R1,
    C2D1R1,
    C1D2R1,
    C1D1R2,
    C1D2R2,
    C2D1R2,
    C2D2R1,
    C2D2R2,
}

/// The number of channels, DIMMs per channel and ranks per DIMM of a configuration.
pub open spec fn config_shape(c: SimulationMemoryConfiguration) -> (nat, nat, nat) {
    match c {
        SimulationMemoryConfiguration::C1D1R1 => (1, 1, 1),
        SimulationMemoryConfiguration::C2D1R1 => (2, 1, 1),
        SimulationMemoryConfiguration::C1D2R1 => (1, 2, 1),
        SimulationMemoryConfiguration::C1D1R2 => (1, 1, 2),
        SimulationMemoryConfiguration::C1D2R2 => (1, 2, 2),
        SimulationMemoryConfiguration::C2D1R2 => (2, 1, 2),
        SimulationMemoryConfiguration::C2D2R1 => (2, 2, 1),
        SimulationMemoryConfiguration::C2D2R2 => (2, 2, 2),
    }
}

/// The number of ranks of a configuration: channels times DIMMs times ranks per DIMM.
pub open spec fn total_ranks_spec(c: SimulationMemoryConfiguration) -> nat {
    match c {
        SimulationMemoryConfiguration::C1D1R1 => 1,
        SimulationMemoryConfiguration::C2D1R1 => 2,
        SimulationMemoryConfiguration::C1D2R1 => 2,
        SimulationMemoryConfiguration::C1D1R2 => 2,
        SimulationMemoryConfiguration::C1D2R2 => 4,
        SimulationMemoryConfiguration::C2D1R2 => 4,
        SimulationMemoryConfiguration::C2D2R1 => 4,
        SimulationMemoryConfiguration::C2D2R2 => 8,
    }
}

/// The number of ranks is the number of channels times the DIMMs per
/// channel times the ranks per DIMM.
pub proof fn lemma_total_ranks_is_product(c: SimulationMemoryConfiguration)
    ensures
        total_ranks_spec(c) == config_shape(c).0 * config_shape(c).1 * config_shape(c).2,
{
    match c {
        SimulationMemoryConfiguration::C1D1R1 => assert(1nat * 1 * 1 == 1),
        SimulationMemoryConfiguration::C2D1R1 => assert(2nat * 1 * 1 == 2),
        SimulationMemoryConfiguration::C1D2R1 => assert(1nat * 2 * 1 == 2),
        SimulationMemoryConfiguration::C1D1R2 => assert(1nat * 1 * 2 == 2),
        SimulationMemoryConfiguration::C1D2R2 => assert(1nat * 2 * 2 == 4),
        SimulationMemoryConfiguration::C2D1R2 => assert(2nat * 1 * 2 == 4),
        SimulationMemoryConfiguration::C2D2R1 => assert(2nat * 2 * 1 == 4),
        SimulationMemoryConfiguration::C2D2R2 => assert(2nat * 2 * 2 == 8),
    }
}

/// The dense id of the rank that holds `addr`: the channel, DIMM and rank
/// bits of the address that the configuration uses, packed from the least
/// significant position upwards in the order channel, DIMM, rank.
pub open spec fn global_rank_id_spec(c: SimulationMemoryConfiguration, addr: u64) -> int {
    let ch = address_channel(addr) as int;
    let d = address_dimm(addr) as int;
    let r = address_rank(addr) as int;
    match c {
        SimulationMemoryConfiguration::C1D1R1 => 0,
        SimulationMemoryConfiguration::C2D1R1 => ch,
        SimulationMemoryConfiguration::C1D2R1 => d,
        SimulationMemoryConfiguration::C1D1R2 => r,
        SimulationMemoryConfiguration::C1D2R2 => d + 2 * r,
        SimulationMemoryConfiguration::C2D1R2 => ch + 2 * r,
        SimulationMemoryConfiguration::C2D2R1 => ch + 2 * d,
        SimulationMemoryConfiguration::C2D2R2 => ch + 2 * d + 4 * r,
    }
}

impl SimulationMemoryConfiguration {
    /// Total number of ranks in the configuration.
    pub fn get_total_ranks(&self) -> (r: u8)
        ensures
            r as nat == total_ranks_spec(*self),
    {
        match *self {
            SimulationMemoryConfiguration::C1D1R1 => 1,
            SimulationMemoryConfiguration::C2D1R1 => 2,
            SimulationMemoryConfiguration::C1D2R1 => 2,
            SimulationMemoryConfiguration::C1D1R2 => 2,
            SimulationMemoryConfiguration::C1D2R2 => 4,
            SimulationMemoryConfiguration::C2D1R2 => 4,
            SimulationMemoryConfiguration::C2D2R1 => 4,
            SimulationMemoryConfiguration::C2D2R2 => 8,
        }
    }

    /// The dense id of the rank that holds `addr` in this configuration.
    pub fn get_global_rank_id(&self, addr: u64) -> (r: u8)
        ensures
            r as int == global_rank_id_spec(*self, addr),
            (r as nat) < total_ranks_spec(*self),
    {
        let ch = crate::simulate::memory::AddressMapping(addr).channel();
        let d = crate::simulate::memory::AddressMapping(addr).dimm();
        let rk = crate::simulate::memory::AddressMapping(addr).rank();
        match *self {
            SimulationMemoryConfiguration::C1D1R1 => 0,
            SimulationMemoryConfiguration::C2D1R1 => ch,
            SimulationMemoryConfiguration::C1D2R1 => d,
            SimulationMemoryConfiguration::C1D1R2 => rk,
            SimulationMemoryConfiguration::C1D2R2 => d + 2 * rk,
            SimulationMemoryConfiguration::C2D1R2 => ch + 2 * rk,
            SimulationMemoryConfiguration::C2D2R1 => ch + 2 * d,
            SimulationMemoryConfiguration::C2D2R2 => ch + 2 * d + 4 * rk,
        }
    }

    /// The processor that owns `addr`: the one sitting on the rank that holds it.
    pub fn get_owner_processor(&self, addr: u64) -> (r: u8)
        ensures
            r as int == global_rank_id_spec(*self, addr),
            (r as nat) < total_ranks_spec(*self),
    {
        self.get_global_rank_id(addr)
    }
}

/// The DIMM interconnect topology of the simulated machine.
#[derive(Clone, Copy, Debug, PartialEq, Eq, Hash, Structural)]
pub enum SimulationMemoryLinkTopology {
    FullyConnected,
    Line,
}

/// The subcommands.
#[derive(Debug)]
pub enum Commands {
    Trace(TraceArgs),
    Analyze(AnalysisArgs),
    Depth(DepthArgs),
    PaperAnalyze(PaperAnalysisArgs),
    Simulate(SimulationArgs),
    Export(ExportArgs),
}

/// Arguments of the `export` command.
#[derive(Debug, Clone)]
pub struct ExportArgs {
    pub output_path: String,
    pub format: ExportFormatChoice,
}

/// Export formats.
#[derive(Clone, Copy, PartialEq, Eq, Debug, Structural)]
pub enum ExportFormatChoice {
    CosmographCsv,
}

} // verus!
