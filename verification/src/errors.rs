//! Error taxonomy of the bridge.
//!
//! Decode and encode errors are recoverable and never propagate past the
//! single link binding that produced them; binding errors are fatal to
//! bridge assembly; subscription errors terminate only the dependent
//! consumer.

use vstd::prelude::*;

verus! {

/// Why a payload could not be decoded into a record value.
///
/// A failed decode discards the payload and leaves the record's buffered
/// value unchanged: stale-but-valid data outranks corrupted data.
#[derive(Clone, Copy, Debug, PartialEq, Eq, Structural)]
pub enum DecodeError {
    /// A bus telegram whose width is not the exact width of the datapoint type.
    LengthMismatch,
    /// A textual payload that is not valid UTF-8.
    InvalidUtf8,
    /// A textual payload that is not a flat key-value object.
    Malformed,
}

/// Why a record value could not be encoded for an outbound endpoint.
///
/// A failed encode drops that one publish attempt; it never blocks or
/// corrupts the buffered value.
#[derive(Clone, Copy, Debug, PartialEq, Eq, Structural)]
pub enum EncodeError {
    /// The record's device address contains a character outside the
    /// address alphabet (decimal digits and `/`), so it cannot be written
    /// unescaped into a textual payload.
    AddressNotRepresentable,
}

/// Why a record specification was rejected during bridge assembly.
///
/// Assembly is all-or-nothing: any binding error aborts the whole bridge.
#[derive(Clone, Copy, Debug, PartialEq, Eq, Structural)]
pub enum BindingError {
    /// A ring buffer policy with capacity zero.
    ZeroCapacity,
    /// A binding registered under the wrong direction.
    DirectionMismatch,
    /// A binding whose wire format cannot carry the record's kind.
    CodecMismatch,
    /// A binding with an empty endpoint identifier.
    EmptyEndpoint,
}

/// Why a subscription could not be attached to a buffer cell.
#[derive(Clone, Copy, Debug, PartialEq, Eq, Structural)]
pub enum SubscriptionError {
    /// The cell already serves its maximum number of subscribers.
    LimitReached,
}

} // verus!
