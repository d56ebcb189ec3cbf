//! Slack (total float) of every node of a directed graph, in the sense of the
//! critical path method, with the graph and topological ordering it rests on.

pub mod graph;
pub mod topo;
pub mod slack;
