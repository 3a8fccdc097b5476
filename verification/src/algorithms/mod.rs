//! Searches over the graph of hexagons and their neighbors.
pub mod field_of_view;
pub mod pathfinding;
mod search;
