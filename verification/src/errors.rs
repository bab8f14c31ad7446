//! Error types surfaced by the library.

use vstd::prelude::*;

verus! {

/// A plain message wrapper carried by every error kind.
#[derive(Debug)]
pub struct CustomError {
    /// The message describing what went wrong.
    pub origin: String,
}

impl CustomError {
    /// Wrap a message.
    pub fn new(err: String) -> (r: Self)
        ensures
            r.origin == err,
    {
        CustomError { origin: err }
    }
}

/// The error taxonomy of the storage engine and its control plane.
#[derive(Debug)]
pub enum ErrorKind {
    /// Unparseable index identifier, cookie mismatch on fetch, size-field
    /// overflow, or an unknown URL scheme.
    InvalidArgument(CustomError),
    /// A failure surfaced by the object store or by parsing a binary record.
    IOError(CustomError),
    /// Malformed path or missing required configuration field.
    ConfigError(CustomError),
    /// One of the three stream closes failed during finalization.
    CloseError(CustomError),
    /// The allocation service returned a non-OK status.
    ControllerError(CustomError),
    /// A requested CRC check disagreed with the stored checksum.
    CrcMismatch(CustomError),
    /// A magic header or record delimiter failed validation.
    MagicMismatch(CustomError),
}

impl ErrorKind {
    /// The message carried by the error, whatever its kind.
    pub fn message(&self) -> (r: &String)
        ensures
            r@ == self.spec_message(),
    {
        match self {
            ErrorKind::InvalidArgument(e) => &e.origin,
            ErrorKind::IOError(e) => &e.origin,
            ErrorKind::ConfigError(e) => &e.origin,
            ErrorKind::CloseError(e) => &e.origin,
            ErrorKind::ControllerError(e) => &e.origin,
            ErrorKind::CrcMismatch(e) => &e.origin,
            ErrorKind::MagicMismatch(e) => &e.origin,
        }
    }

    /// Spec view of the carried message.
    pub open spec fn spec_message(&self) -> Seq<char> {
        match self {
            ErrorKind::InvalidArgument(e) => e.origin@,
            ErrorKind::IOError(e) => e.origin@,
            ErrorKind::ConfigError(e) => e.origin@,
            ErrorKind::CloseError(e) => e.origin@,
            ErrorKind::ControllerError(e) => e.origin@,
            ErrorKind::CrcMismatch(e) => e.origin@,
            ErrorKind::MagicMismatch(e) => e.origin@,
        }
    }
}

/// Errors of the byte-level record decoders.
#[derive(Debug)]
pub enum DecodeError {
    /// The bytes do not form a record of the expected shape.
    DeserializeError(CustomError),
    /// A read failed before a whole record was available.
    IOError(CustomError),
    /// Fewer bytes than the record's fixed size.
    ShortRead(CustomError),
}

} // verus!
