//! What the C interface of the middleware decides: how its arguments become values,
//! and how values become return codes and buffers.
pub mod graph;
pub mod registry;
pub mod settings;
pub mod take;
