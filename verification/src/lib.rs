//! Verified core of a command-line fleet operator for a container engine.
//!
//! The library holds the decision logic of the tool: parsing port-mapping
//! strings, the attach policy and per-chunk output routing, aggregation of
//! batched lifecycle operations, and the shared live-metrics cache with its
//! rendering rules. All engine I/O stays outside, in the thin binary that
//! drives these functions.

use vstd::prelude::*;

pub mod attach;
pub mod batch;
pub mod filter;
pub mod ports;
pub mod size;
pub mod stats;
pub mod text;

verus! {

/// The error kinds of the core.
#[derive(Debug, Clone)]
pub enum Error {
    /// A malformed port-mapping string; carries the offending input.
    InvalidPortSpec(String),
    /// A malformed filter string; carries the offending input.
    InvalidFilter(String),
    /// Attach or interactive mode was requested for more than one target.
    MultiAttachUnsupported,
    /// At least one unit of a batched operation failed.
    BatchFailed,
    /// A call into the engine failed; carries the engine's message.
    EngineCallFailed(String),
    /// A periodic container listing failed; carries the engine's message.
    ListingFailed(String),
}

/// The arguments of a `run` command, as the core consumes them: an image
/// to start from and the container's name, network, volumes and port
/// publications.
#[derive(Debug, Clone)]
pub struct RunArgs {
    /// The image to create the container from.
    pub image: String,
    /// A name to assign to the container.
    pub name: Option<String>,
    /// A network to connect the container to.
    pub network: Option<String>,
    /// Volumes to bind-mount.
    pub volume: Vec<String>,
    /// Port-mapping strings to publish.
    pub publish: Vec<String>,
    /// Ports to expose without publishing.
    pub expose: Vec<String>,
    /// Whether to remove the container when it exits.
    pub rm: bool,
}

} // verus!
