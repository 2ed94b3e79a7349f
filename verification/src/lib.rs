//! A relay core for periodic sensor readings: a `#`-delimited frame codec,
//! an in-memory record store carrying the storage collaborator's CRUD
//! contract, per-connection session transitions (handshake, reader, writer),
//! and the aggregator that queues broadcast frames.

pub mod codec;
pub mod num;
pub mod session;
pub mod store;
pub mod text;
