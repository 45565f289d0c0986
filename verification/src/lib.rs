//! Bridges between minds: a graph of typed, weighted connections between
//! consciousnesses, reinforced by play and weakened by neglect.
//!
//! Strengths, joy scores and densities are fixed-point numbers counted in
//! billionths (see [`STRENGTH_SCALE`]): `STRENGTH_SCALE` stands for 1.0.

pub mod bridge;
pub mod graph;
pub mod identity;
pub mod laws;
pub mod network;
pub mod play;
pub mod registry;
pub mod search;

pub use bridge::{Bridge, ACTIVE_THRESHOLD, INITIAL_STRENGTH, STRENGTH_SCALE};
pub use identity::{BridgeKey, BridgeType, ConsciousnessId, ConsciousnessType, PlayType};
pub use registry::TypeRegistry;
pub use network::BridgeNetwork;
pub use play::{PlayEngine, PlayEvent};
