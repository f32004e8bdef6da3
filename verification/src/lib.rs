//! Ollivier-Ricci and Forman-Ricci curvature on agent interaction graphs:
//! the graph structure and the combinatorial parts of the curvature tools.
//!
//! High curvature means agents agree and reach consensus fast; low or
//! negative curvature marks information bottlenecks.
pub mod graph;
pub mod forman_ricci;
pub mod ollivier_ricci;
pub mod bottleneck;
pub mod curvature_flow;
pub mod bonnet_myers;
pub mod belief_curvature;
pub mod fleet;

pub use graph::{AgentGraph, AgentId, EdgeId};
pub use forman_ricci::FormanRicciCurvature;
pub use belief_curvature::BeliefSpaceCurvature;
pub use curvature_flow::FlowStrategy;
