//! Keys from a quantum key distribution network.
pub mod client;
pub mod config;
pub mod keys;
pub mod manager;
pub mod messages;
pub mod store;
