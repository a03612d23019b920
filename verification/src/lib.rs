//! A speed-enforcement protocol server library.
//!
//! Clients declare themselves as cameras (fixed observation points on a road)
//! or dispatchers (responsible for ticket delivery on a set of roads). The
//! engine correlates plate sightings to infer average speeds, issues a ticket
//! when a vehicle exceeds a road's posted limit by more than the tolerance
//! margin, and routes tickets to a connected dispatcher for the road, queuing
//! them while none is connected.

pub mod app;
pub mod types;
pub mod laws;
pub mod models;
pub mod utils;
pub mod wire;
pub mod parser;
pub mod store;
