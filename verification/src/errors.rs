//! Error taxonomy of the worker.

use vstd::prelude::*;

verus! {

/// Everything that can go wrong on one device's path through the loop.
///
/// The first two are retryable: the loop asks for fresh work after a
/// backoff. `EncodingOverflow` marks a coordinator/worker protocol
/// mismatch; the bad assignment is dropped and fresh work is requested.
/// `DeviceDispatchError` is fatal for that device's loop alone.
/// `ReportingFailure` is never fatal: progress reports are fire-and-forget
/// and solution reports are retried a bounded number of times.
#[derive(Clone, Copy, Debug, PartialEq, Eq, Structural)]
pub enum WorkerError {
    /// The coordinator could not be reached at the transport level.
    CoordinatorUnavailable,
    /// The coordinator answered, but not with a well-formed work
    /// assignment (missing field, malformed offset, or a digit >= 2048).
    CoordinatorProtocolError,
    /// Packing the digits, or adding the offset, would exceed 128 bits.
    EncodingOverflow,
    /// Program build, buffer allocation, argument binding or enqueue
    /// failed on the device.
    DeviceDispatchError,
    /// A progress or solution report did not get through.
    ReportingFailure,
}

} // verus!
