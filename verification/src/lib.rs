//! Discrete-event simulation of load-balancing policies.
//!
//! A run takes a list of servers, a request arrival profile and a selection
//! policy, replays the arrivals through a priority-ordered event queue and
//! reports per-server totals and aggregate metrics.

pub mod algorithms;
pub mod config;
pub mod engine;
pub mod error;
pub mod events;
pub mod laws;
pub mod limits;
pub mod machine;
pub mod metrics;
pub mod models;
pub mod order;
pub mod output;
pub mod queue;
pub mod report;
pub mod requests;
pub mod rng;
pub mod state;
pub mod text;
pub mod validation;
