//! Decoder for a length-prefixed framing protocol.
//!
//! A stream opens with a start handshake, carries data frames interleaved
//! with control frames, and closes with a stop control frame. Every integer on
//! the wire is an unsigned 32-bit big-endian number.
//!
//! The [`wire`] module states the format as functions on byte sequences, and
//! [`session`] states what a decoder does with a stream, read by read. The
//! [`Decoder`] reads bytes that it holds in memory and is proved to follow
//! both. A caller with a live stream asks the decoder how many bytes its
//! next read lacks, and feeds it those. [`laws`] holds what is proved of the
//! format and of sessions: that what was written is read back, that frames
//! are held to their bounds, that no control frame is handed out, that a
//! session that has stopped gives nothing more, and that a read that lacks
//! no byte does not depend on what follows in the stream. [`outside`] holds
//! the two calls into code that is not verified here.

pub mod constants;
pub mod decoder;
pub mod error;
pub mod laws;
pub mod outside;
pub mod session;
pub mod source;
pub mod wire;

pub use crate::decoder::{ControlFrame, Decoder, Frame};
pub use crate::error::DecodeError;
