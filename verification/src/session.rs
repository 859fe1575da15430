//! A decoding session, as a function from one state to the next.

use crate::constants::{CONTROL_START, CONTROL_STOP};
use crate::error::DecodeError;
use crate::wire::{
    control_frame_bytes, data_frame_bytes, parse_bytes, parse_control_frame, parse_start,
    parse_word, u32_bytes, Outcome,
};
use vstd::prelude::*;

verus! {

/// What a decoder is, to its callers: the bytes that it has not read yet, the
/// content type that it was asked to keep to, whether the handshake that
/// opens the stream has been read, and whether a stop frame has closed the
/// session.
pub struct DecoderView {
    pub input: Seq<u8>,
    pub content_type: Option<Seq<char>>,
    pub started: bool,
    pub stopped: bool,
}

impl DecoderView {
    /// The same decoder with `input` left to read.
    pub open spec fn at(self, input: Seq<u8>) -> DecoderView {
        DecoderView { input, ..self }
    }

    /// The same decoder with its session closed and `input` left unread.
    pub open spec fn stopped_at(self, input: Seq<u8>) -> DecoderView {
        DecoderView { input, stopped: true, ..self }
    }
}

/// The state after one call, and what the call gave.
pub struct Step<T> {
    pub output: T,
    pub state: DecoderView,
}

/// Reads the payload of a data frame of `n` bytes for a caller whose buffer
/// holds `capacity` bytes. A payload that does not fit is refused before a
/// byte of it is read.
pub open spec fn parse_payload(s: Seq<u8>, n: nat, capacity: nat) -> Outcome<Seq<u8>> {
    if n > capacity {
        Outcome { result: Err(DecodeError::BufferTooSmall), rest: s }
    } else {
        parse_bytes(s, n)
    }
}

/// Makes sure that the handshake has been read. A decoder that has started
/// stays as it is; another reads the handshake, and has started if that went
/// well.
pub open spec fn start(v: DecoderView) -> Step<Result<(), DecodeError>> {
    if v.started {
        Step { output: Ok(()), state: v }
    } else {
        let handshake = parse_start(v.input);
        Step {
            output: handshake.result,
            state: DecoderView {
                input: handshake.rest,
                started: handshake.result is Ok,
                ..v
            },
        }
    }
}

/// One read in pull mode, into a buffer of `capacity` bytes: the payload that
/// is written to the front of the buffer, or the error. The empty payload is
/// given for the end of the session alone: by the read that meets the stop
/// frame, and by every read after it, which reads no byte. Any other control
/// frame after the handshake fails the read.
pub open spec fn pull(v: DecoderView, capacity: nat) -> Step<Result<Seq<u8>, DecodeError>> {
    if v.stopped {
        Step { output: Ok(Seq::empty()), state: v }
    } else {
        let started = start(v);
        match started.output {
            Err(e) => Step { output: Err(e), state: started.state },
            Ok(_) => {
                let frame_len = parse_word(started.state.input);
                match frame_len.result {
                    Err(e) => Step { output: Err(e), state: started.state.at(frame_len.rest) },
                    Ok(n) => if n == 0 {
                        let frame = parse_control_frame(frame_len.rest);
                        match frame.result {
                            Err(e) => Step { output: Err(e), state: started.state.at(frame.rest) },
                            Ok(f) => if f.control_type == CONTROL_STOP {
                                Step {
                                    output: Ok(Seq::empty()),
                                    state: started.state.stopped_at(frame.rest),
                                }
                            } else {
                                Step {
                                    output: Err(
                                        DecodeError::UnexpectedControlFrame {
                                            control_type: f.control_type,
                                        },
                                    ),
                                    state: started.state.at(frame.rest),
                                }
                            },
                        }
                    } else {
                        let payload = parse_payload(frame_len.rest, n as nat, capacity);
                        Step { output: payload.result, state: started.state.at(payload.rest) }
                    },
                }
            },
        }
    }
}

/// One step in sequence mode: the payload of the next data frame, or nothing
/// where the session has ended or a read fails. It is one read in pull mode
/// into a buffer that holds any payload, with the error left out: a frame
/// that is given is the payload of a data frame, and so is never empty.
pub open spec fn next_frame(v: DecoderView) -> Step<Option<Seq<u8>>> {
    let read = pull(v, u32::MAX as nat);
    Step {
        output: match read.output {
            Ok(payload) => if payload.len() > 0 {
                Some(payload)
            } else {
                None
            },
            Err(_) => None,
        },
        state: read.state,
    }
}

impl<T> Step<T> {
    /// The same step of a decoder whose input goes on with `more`.
    pub open spec fn followed_by(self, more: Seq<u8>) -> Step<T> {
        Step { output: self.output, state: self.state.at(self.state.input + more) }
    }
}

/// How many bytes a decoder lacks for its next read in pull mode into a
/// buffer of `capacity` bytes: what the read that runs out of input says it
/// lacked, and nothing where the read does not run out.
pub open spec fn shortfall(v: DecoderView, capacity: nat) -> nat {
    match pull(v, capacity).output {
        Err(e) => e.lacked(),
        Ok(_) => 0,
    }
}

/// The decoder after `k` steps in sequence mode.
pub open spec fn after_frames(v: DecoderView, k: nat) -> DecoderView
    decreases k,
{
    if k == 0 {
        v
    } else {
        next_frame(after_frames(v, (k - 1) as nat)).state
    }
}

/// The decoder after `k` reads in pull mode into buffers of `capacity` bytes.
pub open spec fn after_pulls(v: DecoderView, capacity: nat, k: nat) -> DecoderView
    decreases k,
{
    if k == 0 {
        v
    } else {
        pull(after_pulls(v, capacity, (k - 1) as nat), capacity).state
    }
}

/// The bytes of the data frames that carry `payloads`, one after the other.
pub open spec fn data_frames_bytes(payloads: Seq<Seq<u8>>) -> Seq<u8>
    decreases payloads.len(),
{
    if payloads.len() == 0 {
        Seq::empty()
    } else {
        data_frame_bytes(payloads[0]) + data_frames_bytes(payloads.skip(1))
    }
}

/// Whether each of `payloads` can travel in a data frame: it is not empty,
/// since a length of zero announces a control frame, and its length fits the
/// length word.
pub open spec fn sendable(payloads: Seq<Seq<u8>>) -> bool {
    forall|i: int| 0 <= i < payloads.len() ==> 0 < (#[trigger] payloads[i]).len() <= u32::MAX
}

/// The bytes of a whole session: the handshake, whose start frame has fields
/// of the values `start_values`; the data frames that carry `payloads`; and a
/// stop frame with fields of the values `stop_values`.
pub open spec fn stream_bytes(
    start_values: Seq<Seq<u8>>,
    payloads: Seq<Seq<u8>>,
    stop_values: Seq<Seq<u8>>,
) -> Seq<u8> {
    u32_bytes(0) + control_frame_bytes(CONTROL_START, start_values) + data_frames_bytes(payloads)
        + stop_bytes(stop_values)
}

/// The bytes of a whole session with one data frame: the handshake, whose
/// start frame has fields of the values `start_values`; the data frame that
/// carries `payload`; and a stop frame with fields of the values
/// `stop_values`.
pub open spec fn session_bytes(
    start_values: Seq<Seq<u8>>,
    payload: Seq<u8>,
    stop_values: Seq<Seq<u8>>,
) -> Seq<u8> {
    u32_bytes(0) + control_frame_bytes(CONTROL_START, start_values) + data_frame_bytes(payload)
        + stop_bytes(stop_values)
}

/// The bytes that close a stream: the zero word that announces a control
/// frame, and a stop frame with fields of the values `values`.
pub open spec fn stop_bytes(values: Seq<Seq<u8>>) -> Seq<u8> {
    u32_bytes(0) + control_frame_bytes(CONTROL_STOP, values)
}

} // verus!
