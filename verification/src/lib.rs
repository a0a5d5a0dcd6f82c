//! Connectivity-graph construction for hierarchical HDL chip designs.
//!
//! Given a root chip description and the descriptions of the chips it
//! instantiates, the library classifies every pin connection by direction,
//! accumulates per-net driver and consumer sets, and renders the resulting
//! directed graph in the dot language.

/// Graph construction from a root chip name and a table of definition files.
pub mod builder;
/// Chip descriptions, their models, and chip resolution.
pub mod chip;
/// The error type of resolution and graph construction.
pub mod error;
/// The graph model: nodes, edges, and the endpoint-membership specification.
pub mod graph;
/// Proved properties of graph construction.
pub mod laws;
/// Rendering of a graph into the dot language.
pub mod render;
/// Name ordering, stemming, and decimal rendering.
pub mod text;

pub use builder::generate_graph;
pub use chip::{ChipDesc, Conn, PartDesc, resolve};
pub use error::GenericError;
pub use graph::{Edge, Graph, Node};
