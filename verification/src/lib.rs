//! Reconciliation engine of a chain-upgrade metrics exporter.

pub mod config;
pub mod event;
pub mod instant;
pub mod laws;
pub mod model;
pub mod reconciler;
pub mod registry;
