//! The discovery daemon: its node table, its protocols and its bookkeeping.
pub mod client;
pub mod departures;
pub mod discovery_shm;
pub mod graph_sync;
pub mod handler;
pub mod link_laws;
pub mod linking;
pub mod match_list;
pub mod peer_discovery;
pub mod peer_merge;
pub mod peer_sync;
pub mod peers;
pub mod rpc;
pub mod rpc_round_trip;
pub mod startup;
pub mod xml;
