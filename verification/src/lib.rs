//! Verified core of a line-oriented serial telemetry pipeline.
//!
//! Raw bytes are reassembled into delimiter-terminated frames, three-line
//! frame groups are correlated into one sample, each sample is decoded into
//! a typed telemetry record, and a bounded window of recent records emits
//! rate-limited mean/mode snapshots. Real-valued channels are carried as
//! fixed-point numbers in millionths of a unit, so every step of the
//! pipeline is plain integer arithmetic with an exact contract.

pub mod bytes;
pub mod correlator;
pub mod decoder;
pub mod numeric;
pub mod reassembler;
pub mod record;
pub mod window;
