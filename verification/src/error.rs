//! Error categories and writer flags.

use vstd::prelude::*;

verus! {

/// Why an operation on a chunk failed.
#[derive(Clone, Copy, PartialEq, Eq, Structural, Debug)]
pub enum Error {
    /// The buffer is too short to hold a header and a table directory, its
    /// directory counts more associations than a 32-bit number can hold, or
    /// a record has no room for its terminator.
    InvalidFormat,
    /// The buffer does not start with the chunk identifier.
    MagicMismatch,
    /// The byte-order marker is not the expected constant.
    ByteOrderMismatch,
    /// A table, a backward array or a record reaches past the end of the buffer.
    UnexpectedEof,
    /// A negative identifier was handed to the writer.
    InvalidId,
    /// The chunk would need offsets wider than 32 bits.
    TooLarge,
    /// The stream position cannot be moved past the reserved header area.
    Seek,
    /// The stream cannot take the bytes at its current position.
    Write,
}

impl Error {
    /// A short description of the error.
    pub fn message(&self) -> (r: &'static str)
        ensures
            r@ == (match *self {
                Error::InvalidFormat => "invalid file format"@,
                Error::MagicMismatch => "invalid file format, magic mismatch"@,
                Error::ByteOrderMismatch => "invalid file format, byte order mismatch"@,
                Error::UnexpectedEof => "not enough data for unpacking u32"@,
                Error::InvalidId => "invalid identifier"@,
                Error::TooLarge => "chunk too large"@,
                Error::Seek => "seek failed"@,
                Error::Write => "write failed"@,
            }),
    {
        match self {
            Error::InvalidFormat => "invalid file format",
            Error::MagicMismatch => "invalid file format, magic mismatch",
            Error::ByteOrderMismatch => "invalid file format, byte order mismatch",
            Error::UnexpectedEof => "not enough data for unpacking u32",
            Error::InvalidId => "invalid identifier",
            Error::TooLarge => "chunk too large",
            Error::Seek => "seek failed",
            Error::Write => "write failed",
        }
    }
}

/// Writer flags. The two values are the two sets over the single flag bit.
#[allow(non_camel_case_types)]
#[derive(Clone, Copy, PartialEq, Eq, Structural, Debug)]
pub enum Flag {
    /// No flag, the default: both lookup directions are stored.
    NONE,
    /// The backward (identifier to string) array is omitted.
    ONEWAY,
}

impl Flag {
    /// The flag word as it is stored in a chunk header.
    pub open spec fn spec_bits(self) -> u32 {
        match self {
            Flag::NONE => 0u32,
            Flag::ONEWAY => 1u32,
        }
    }

    /// The flag word as it is stored in a chunk header.
    #[verifier::when_used_as_spec(spec_bits)]
    pub fn bits(self) -> (r: u32)
        ensures
            r == self.spec_bits(),
    {
        match self {
            Flag::NONE => 0,
            Flag::ONEWAY => 1,
        }
    }

    /// The flag set with exactly the given bits, if every bit is a known flag.
    pub fn from_bits(bits: u32) -> (r: Option<Flag>)
        ensures
            r == (if bits == 0 {
                Some(Flag::NONE)
            } else if bits == 1 {
                Some(Flag::ONEWAY)
            } else {
                None
            }),
    {
        if bits == 0 {
            Some(Flag::NONE)
        } else if bits == 1 {
            Some(Flag::ONEWAY)
        } else {
            None
        }
    }

    /// Whether every flag of `other` is set in `self`.
    pub open spec fn spec_contains(self, other: Flag) -> bool {
        other == Flag::NONE || self == Flag::ONEWAY
    }

    /// Whether every flag of `other` is set in `self`.
    #[verifier::when_used_as_spec(spec_contains)]
    pub fn contains(self, other: Flag) -> (r: bool)
        ensures
            r == self.spec_contains(other),
    {
        match other {
            Flag::NONE => true,
            Flag::ONEWAY => match self {
                Flag::NONE => false,
                Flag::ONEWAY => true,
            },
        }
    }
}

} // verus!
