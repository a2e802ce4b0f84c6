//! A small-world fleet of venues: a seedable xorshift generator, an undirected
//! adjacency graph with connectivity and hub queries, and the integer
//! bookkeeping of a fleet simulation.
pub mod rng;
pub mod graph;
pub mod reach;
pub mod topology;
pub mod venue;
pub mod fleet;
