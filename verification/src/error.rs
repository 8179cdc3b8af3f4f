//! Error kinds of the codec, the transport and the command pipeline.
use vstd::prelude::*;

verus! {

/// Why a value could not be encoded.
#[derive(Clone, Copy, Debug, PartialEq, Eq, Structural)]
pub enum MarshalError {
    /// The space left in the output buffer is shorter than the encoding.
    BufferTooSmall,
    /// A byte field is longer than its 16-bit length prefix can express.
    FieldTooLong,
}

/// Why the front of an input buffer could not be decoded.
#[derive(Clone, Copy, Debug, PartialEq, Eq, Structural)]
pub enum UnmarshalError {
    /// Fewer bytes remain than the field needs.
    Truncated,
    /// A byte pattern that no value of the field's type encodes.
    InvalidValue,
    /// A selection bitmap sets the bit of this register index, which is
    /// beyond the supported profile.
    PcrTooLarge(usize),
}

/// A failure reported by the device transport.
#[derive(Clone, Copy, Debug, PartialEq, Eq, Structural)]
pub enum DriverError {
    /// The device could not be reached.
    Unavailable,
    /// The underlying read or write failed.
    Io,
    /// The device answered with this non-zero response code.
    Device(u32),
}

/// The single error surface of the command pipeline: one variant per stage.
#[derive(Clone, Copy, Debug, PartialEq, Eq, Structural)]
pub enum Error {
    /// Building the command failed; the transport was not invoked.
    Marshal(MarshalError),
    /// The transport failed; no response was parsed.
    Driver(DriverError),
    /// The response did not parse.
    Unmarshal(UnmarshalError),
}

} // verus!
