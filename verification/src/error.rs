//! Why a read failed.

use vstd::prelude::*;

verus! {

/// The ways in which decoding a stream can fail.
#[derive(Clone, Copy, Debug, PartialEq, Eq, Structural)]
pub enum DecodeError {
    /// The source ended before the bytes that were asked for: `missing` more
    /// would have met the read.
    UnexpectedEof { missing: usize },
    /// A control frame declared more bytes than the protocol allows.
    ControlFrameTooLarge { len: u32 },
    /// A control frame declared too few bytes to hold its control type.
    ControlFrameTooShort,
    /// The stream did not open with the zero word that announces a control frame.
    StartNotZero,
    /// The first control frame of the stream was not a start frame.
    ExpectedStart,
    /// A control frame after the handshake was not a stop frame.
    UnexpectedControlFrame { control_type: u32 },
    /// A control field had a type other than content type.
    UnexpectedFieldType { got: u32 },
    /// A control field declared more bytes than its control frame had left.
    FieldTooLarge { len: u32, limit: usize },
    /// A data frame declared more bytes than the caller's buffer holds.
    BufferTooSmall,
}

impl DecodeError {
    /// How many bytes the read lacked, where it failed because the source
    /// ended, and zero for every other failure.
    pub open spec fn lacked(self) -> nat {
        match self {
            DecodeError::UnexpectedEof { missing } => missing as nat,
            _ => 0,
        }
    }

    /// How many bytes the read lacked, where it failed because the source
    /// ended, and zero for every other failure.
    pub fn missing(&self) -> (n: usize)
        ensures
            n == self.lacked(),
    {
        match self {
            DecodeError::UnexpectedEof { missing } => *missing,
            _ => 0,
        }
    }
}

} // verus!
