//! Deadlock avoidance by the banker's algorithm: a resource-state model, the
//! safety check that searches for a completion order, and the request arbiter
//! that only grants requests which keep the system in a safe state.

pub mod bankers_algorithm;
pub mod error;
pub mod matrix;
pub mod state;
