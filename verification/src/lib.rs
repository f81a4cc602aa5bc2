//! Core of the AXON middleware: wire formats, discovery bookkeeping, quality of
//! service rules, local ring buffers and key management, each with its contract.
pub mod bridge;
pub mod bytes;
pub mod compress;
pub mod daemon;
pub mod duration;
pub mod events;
pub mod filter;
pub mod graph_cache;
pub mod local;
pub mod qkd;
pub mod qos;
pub mod quic_calls;
pub mod quic_transport;
pub mod security_mode;
pub mod session;
pub mod text;
pub mod topic_pipeline;
pub mod types;
