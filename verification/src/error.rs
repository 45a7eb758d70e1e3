use vstd::prelude::*;

verus! {

/// The reason a compression pointer inside a name could not be followed.
#[derive(Debug, Clone, Copy, PartialEq, Eq, Structural)]
pub enum NameError {
    /// The 14-bit pointer offset lies at or past the end of the buffer.
    ReferenceOutOfBounds,
    /// No zero terminator exists between the pointer target and the end of
    /// the buffer.
    MissingTerminator,
}

/// Everything that can go wrong while decoding a DNS message.
#[derive(Debug, Clone, Copy, PartialEq, Eq, Structural)]
pub enum DnsError {
    /// The buffer ran out in the middle of a fixed-size field or label:
    /// `requested` bytes were needed but only `available` remained.
    NotEnoughData { requested: usize, available: usize },
    /// A name's compression pointer was malformed.
    InvalidName(NameError),
    /// A type code outside the supported enumeration; carries the code.
    InvalidType(u16),
    /// A class code outside the supported enumeration; carries the code.
    InvalidClass(u16),
}

/// Whether a decode result is a failure for want of input bytes.
pub open spec fn short_read<T>(r: Result<T, DnsError>) -> bool {
    match r {
        Err(DnsError::NotEnoughData { .. }) => true,
        _ => false,
    }
}

impl DnsError {
    /// A human-readable rendering of the error, for logs.
    pub fn describe(&self) -> &'static str {
        match *self {
            DnsError::NotEnoughData { .. } => "not enough data to parse",
            DnsError::InvalidName(NameError::ReferenceOutOfBounds) => {
                "invalid name: reference out of bounds"
            },
            DnsError::InvalidName(NameError::MissingTerminator) => {
                "invalid name: null terminator missing"
            },
            DnsError::InvalidType(_) => "invalid type",
            DnsError::InvalidClass(_) => "invalid class",
        }
    }
}

} // verus!
