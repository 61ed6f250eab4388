//! World knowledge and directional field for a grid-world agent.
//!
//! The crate keeps track of which cells of a rectangular map hold a
//! harvestable resource, which cells are blocked by opposing units this tick,
//! and computes a gravity field: for every cell, the first step of a route to
//! the nearest resource and the cost of that route. A resource that has not
//! arrived yet counts with the ticks until its arrival added to the cost.
//!
//! * `terrain`, `direction`: the map and the compass.
//! * `field`: the search that produces a gravity field, as a mathematical
//!   function of the terrain, the obstacles and the sources.
//! * `settled`, `routes`: what holds of every field that the search
//!   produces, and how its distances compare with the routes on the map.
//! * `gravity`: the field in memory, recomputed by `GravityMap::update`.
//! * `schedule`, `karbonite`: the resources known now and those to come.
//! * `units`, `turn`: the units seen in a tick and the obstacles they make.
//! * `worker`: the decisions of a worker's turn.

pub mod direction;
pub mod field;
pub mod gravity;
pub mod karbonite;
pub mod routes;
pub mod schedule;
mod search_proof;
pub mod settled;
mod tables;
mod tally;
pub mod terrain;
pub mod turn;
pub mod units;
pub mod worker;
