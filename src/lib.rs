//! Debounced event routing and per-source dispatch for a directory
//! synchronisation agent.

pub mod batch;
pub mod config;
pub mod dispatch;
pub mod helpers;
pub mod paths;
pub mod router;
