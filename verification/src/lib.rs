//! A verified SCAN-style dispatch controller for a bank of elevator cars.
//!
//! The controller consumes building events (hall calls, cabin calls, arrival
//! notifications) and decides, for each car, which floor to visit next. All
//! dispatch decisions are pure functions over plain data and carry proved
//! contracts; the surrounding event transport is left to the embedding
//! application.

pub mod building;
pub mod car;
pub mod controller;
pub mod dispatch;
pub mod laws;
