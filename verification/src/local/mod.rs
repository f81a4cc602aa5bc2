//! The transport between processes of one host.
pub mod pubsub;
pub mod ring;
pub mod segment;
