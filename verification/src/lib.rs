//! Time-series storage and shaping for environmental sensor readings.
//!
//! The library models a store of plant-monitoring metric records (temperature,
//! humidity, light, soil moisture), each recorded at a UTC instant, and offers
//! point, range and per-metric series queries over it, together with the
//! canonical RFC 3339 encoding of instants used at the wire boundary.

use vstd::prelude::*;

pub mod codec;
pub mod facade;
pub mod instant;
pub mod models;
pub mod shaper;
pub mod store;

verus! {

/// Liveness probe: returns without touching any state.
pub fn health() {
}

} // verus!
