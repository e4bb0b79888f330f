pub mod belief_network;
pub mod curl_flow;
pub mod harmonic_flow;
pub mod linalg;
pub mod simplicial;

pub use belief_network::{BeliefEdge, BeliefNetwork, BeliefNode};
pub use curl_flow::NodeType;
pub use harmonic_flow::ChamberComponent;
