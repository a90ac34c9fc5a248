//! Core of a deniable messaging layer: payloads are sliced into chunks that
//! ride in the unused capacity of overt packets, buffered per account and
//! device on the server, and reassembled on the far side.  The byte budget of
//! every emitted envelope is exactly the ceiling of the overt payload size
//! times the configured bandwidth ratio, so an observer who sees packet sizes
//! learns nothing about covert traffic.

pub mod account_manager;
pub mod api;
pub mod availability;
pub mod chunk;
pub mod chunker;
pub mod client;
pub mod codec;
pub mod denim_manager;
pub mod envelope;
pub mod errors;
pub mod outgoing;
pub mod payload;
pub mod persistence;
pub mod ratio;
pub mod reassembly;
pub mod session;
pub mod store;
