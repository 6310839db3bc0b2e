//! A small verified graph library: a weighted directed graph keyed by node
//! labels, and a depth-first traversal that sums the cost of every edge it
//! takes while skipping nodes it has already entered.

pub mod adjacency_matrix;
pub mod graph;
pub mod node;
pub mod visited_wrapper;

pub use adjacency_matrix::AdjacencyMatrix;
pub use graph::Graph;
pub use node::Node;
pub use node::NodeRef;
pub use visited_wrapper::VisitedWrapper;
