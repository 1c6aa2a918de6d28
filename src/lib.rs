//! Structural robustness analysis of directed graphs: degree distributions,
//! strongly connected components, and node-removal simulations.

pub mod graph;
pub mod connectivity;
pub mod degree;
pub mod simulation;
pub mod edge_list;

pub use connectivity::largest_component_size;
pub use degree::{compute_degree_distribution, identify_supernodes};
pub use edge_list::{graph_from_edges, load_edge_list, parse_edge_list, LoadError};
pub use graph::GraphStore;
pub use simulation::{simulate_resilience, simulate_resilience_with_picks, simulate_targeted_attacks};
