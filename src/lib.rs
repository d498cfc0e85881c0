//! Ride-log graph analytics: a directed graph of locations built from trip
//! records, route and hub tallies, breadth-first distances and shortest
//! paths, and integer aggregates of the all-pairs distance tables.
pub mod order;
pub mod graph;
pub mod paths;
pub mod stats;
pub mod routes;
