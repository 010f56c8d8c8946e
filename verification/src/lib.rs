//! Fan-curve logic for manually driving the fans of a PowerEdge server through iDRAC.

pub mod curve;
pub mod text;
pub mod config;
pub mod metrics;
pub mod idrac;
pub mod controller;
pub mod sensors;
