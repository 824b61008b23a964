//! A weighted directed graph with shortest-path, reachability and ordering
//! queries, together with the grid, text-parsing and number helpers that its
//! callers build on.
pub mod graph;
pub mod grid;
pub mod secret;
pub mod parser;
