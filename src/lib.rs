//! Erasure-coded sharding of byte payloads: splitting with zero padding,
//! parity encoding through a Reed-Solomon engine, loss marking,
//! reconstruction and recombination, with contracts proved by Verus.

pub mod error;
pub mod partition;
pub mod recombine;
pub mod availability;
pub mod engine;
pub mod codec;

pub use availability::mark_lost;
pub use codec::Engine;
pub use error::CodecError;
pub use partition::split_data;
pub use recombine::combine_shards;
