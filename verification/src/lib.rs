//! Spatial queries on a hexagonal tile map laid out in odd-q offset
//! coordinates: distances and neighbours, shortest paths, influence fields,
//! territory frontiers, proximity matching, resource tallies and line of sight.
//!
//! Every quantity is an integer. Where a map works with fractional values
//! (movement costs, unit positions, influence), the caller picks a fixed-point
//! unit and the contracts are exact in that unit.

pub mod coords;
pub mod costs;
pub mod routes;
pub mod open_list;
pub mod pathfinding;
pub mod influence;
pub mod resources;
pub mod los;
pub mod frontier;
pub mod combat;
