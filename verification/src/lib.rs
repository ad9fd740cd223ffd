//! A dependency-driven river-routing engine.
//!
//! The library models a river network as a directed acyclic graph of
//! reaches. It builds the topology, computes a routing order by Kahn's
//! algorithm, schedules reaches so that every reach runs only after all
//! of its upstream reaches, accumulates upstream hydrographs into
//! per-reach inflow buffers, and drives a caller-supplied reach kernel
//! over all time steps. The numeric kernel itself and all input/output
//! live outside the library; the engine is generic over the value type
//! that flows through it.

pub mod buffers;
pub mod cli;
pub mod config;
pub mod ids;
pub mod loader;
pub mod network;
pub mod routing;
pub mod scheduler;
pub mod state;

pub use cli::get_args;
pub use config::ColumnConfig;
pub use config::OutputFormat;
