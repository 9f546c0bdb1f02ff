//! Checkpoint indexing core for a Move-based chain.
//!
//! The library consumes an ordered stream of checkpoints (batches of
//! committed transactions with effects, events and object snapshots) and
//! derives the rows of a durable projection: transactions, events,
//! per-transaction indices, object versions, packages and epoch records.
//! Everything that decides or computes lives here and is verified; the
//! surrounding process (channels, database round-trips, the full-node
//! client) hands these functions plain values and carries their results.

pub mod changes;
pub mod commit;
pub mod handler;
pub mod laws;
pub mod object_cache;
pub mod store;
pub mod types;
