//! Host-side logic of a distributed mnemonic search worker.
//!
//! A coordinator hands out work assignments: a mixed-radix digit sequence,
//! a linear offset and a batch size. The worker packs the digits into a
//! 128-bit starting value, dispatches one batch per device, and reports
//! progress (and any found candidate) back to the coordinator. This crate
//! holds the verified core: the search-range codec, the decimal offset
//! codec, protocol-response validation, batch-result interpretation and
//! the per-device worker state machine. Network and device I/O live
//! outside the crate and exchange plain values with it.

pub mod batch;
pub mod codec;
pub mod decimal;
pub mod errors;
pub mod protocol;
pub mod worker;
