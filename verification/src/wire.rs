//! The wire format, as functions on byte sequences.

use crate::constants::{
    CONTROL_FIELD_CONTENT_TYPE, CONTROL_START, MAX_CONTROL_FRAME_LENGTH, MIN_CONTROL_FRAME_LENGTH,
};
use crate::error::DecodeError;
use crate::outside::utf8_repaired;
use vstd::prelude::*;
use vstd::utf8::{decode_utf8, valid_utf8};

verus! {

/// The number that the first four bytes of `s` spell in big-endian order.
pub open spec fn be_u32(s: Seq<u8>) -> u32
    recommends
        s.len() >= 4,
{
    (s[0] as int * 0x100_0000 + s[1] as int * 0x1_0000 + s[2] as int * 0x100 + s[3] as int) as u32
}

/// The four bytes that spell `n` in big-endian order.
pub open spec fn u32_bytes(n: u32) -> Seq<u8> {
    seq![
        (n as int / 0x100_0000) as u8,
        (n as int / 0x1_0000 % 0x100) as u8,
        (n as int / 0x100 % 0x100) as u8,
        (n as int % 0x100) as u8,
    ]
}

/// What lossy UTF-8 decoding makes of `bytes`: the text that they encode where
/// they are valid UTF-8, and that text with its invalid sequences replaced
/// where they are not.
pub open spec fn utf8_lossy(bytes: Seq<u8>) -> Seq<char> {
    if valid_utf8(bytes) {
        decode_utf8(bytes)
    } else {
        utf8_repaired(bytes)
    }
}

/// What one read makes of a byte sequence: the value read or the reason why
/// none was, and the bytes that are left for the next read.
pub struct Outcome<T> {
    pub result: Result<T, DecodeError>,
    pub rest: Seq<u8>,
}

/// A control frame as the wire gives it: its control type, and the content
/// types of its fields in the order in which they stand.
pub struct ControlFrameView {
    pub control_type: u32,
    pub content_types: Seq<Seq<char>>,
}

impl<T> Outcome<T> {
    /// Whether the read failed because the source ended.
    pub open spec fn ran_out(self) -> bool {
        self.result is Err && self.result->Err_0 is UnexpectedEof
    }

    /// The same outcome over a source that goes on with `more`.
    pub open spec fn followed_by(self, more: Seq<u8>) -> Outcome<T> {
        Outcome { result: self.result, rest: self.rest + more }
    }
}

/// Reads exactly `n` bytes. A source that ends before that is drained, and
/// the read fails, saying how many bytes it lacked.
pub open spec fn parse_bytes(s: Seq<u8>, n: nat) -> Outcome<Seq<u8>> {
    if n <= s.len() {
        Outcome { result: Ok(s.take(n as int)), rest: s.skip(n as int) }
    } else {
        Outcome {
            result: Err(DecodeError::UnexpectedEof { missing: (n - s.len()) as usize }),
            rest: Seq::empty(),
        }
    }
}

/// Reads one 32-bit big-endian word.
pub open spec fn parse_word(s: Seq<u8>) -> Outcome<u32> {
    if 4 <= s.len() {
        Outcome { result: Ok(be_u32(s)), rest: s.skip(4) }
    } else {
        Outcome {
            result: Err(DecodeError::UnexpectedEof { missing: (4 - s.len()) as usize }),
            rest: Seq::empty(),
        }
    }
}

/// Reads one control field against a budget of `limit` bytes: its type, which
/// must be content type; the length of its value, which must not exceed
/// `limit`; and the value. Gives the value as text and the bytes that the
/// field took, header included.
pub open spec fn parse_control_field(s: Seq<u8>, limit: nat) -> Outcome<(Seq<char>, nat)> {
    let field_type = parse_word(s);
    match field_type.result {
        Err(e) => Outcome { result: Err(e), rest: field_type.rest },
        Ok(t) => if t != CONTROL_FIELD_CONTENT_TYPE {
            Outcome {
                result: Err(DecodeError::UnexpectedFieldType { got: t }),
                rest: field_type.rest,
            }
        } else {
            let field_len = parse_word(field_type.rest);
            match field_len.result {
                Err(e) => Outcome { result: Err(e), rest: field_len.rest },
                Ok(len) => if len > limit {
                    Outcome {
                        result: Err(DecodeError::FieldTooLarge { len, limit: limit as usize }),
                        rest: field_len.rest,
                    }
                } else {
                    let value = parse_bytes(field_len.rest, len as nat);
                    match value.result {
                        Err(e) => Outcome { result: Err(e), rest: value.rest },
                        Ok(bytes) => Outcome {
                            result: Ok((utf8_lossy(bytes), (8 + len) as nat)),
                            rest: value.rest,
                        },
                    }
                },
            }
        },
    }
}

/// What a control frame with `remaining` bytes has left once a field has
/// taken `bytes_read` of them. A field's value may fill the whole budget, so
/// with its header a field can take up to eight bytes more than were left:
/// nothing is left then.
pub open spec fn budget_after(remaining: nat, bytes_read: nat) -> nat {
    if bytes_read <= remaining {
        (remaining - bytes_read) as nat
    } else {
        0
    }
}

/// Reads the fields of a control frame that has `remaining` bytes left after
/// its control type. Fields are read as long as more than eight bytes are
/// left; what is left then, be it a header that fits exactly, stays unread.
pub open spec fn parse_control_fields(s: Seq<u8>, remaining: nat) -> Outcome<Seq<Seq<char>>>
    decreases remaining,
    via parse_control_fields_decreases
{
    if remaining <= 8 {
        Outcome { result: Ok(Seq::empty()), rest: s }
    } else {
        let field = parse_control_field(s, remaining);
        match field.result {
            Err(e) => Outcome { result: Err(e), rest: field.rest },
            Ok((content_type, bytes_read)) => {
                let others = parse_control_fields(
                    field.rest,
                    budget_after(remaining, bytes_read),
                );
                match others.result {
                    Err(e) => Outcome { result: Err(e), rest: others.rest },
                    Ok(content_types) => Outcome {
                        result: Ok(seq![content_type] + content_types),
                        rest: others.rest,
                    },
                }
            },
        }
    }
}

#[via_fn]
proof fn parse_control_fields_decreases(s: Seq<u8>, remaining: nat) {
    if remaining > 8 {
        lemma_control_field_takes_header(s, remaining);
    }
}

/// A control field that was read took its eight header bytes and its value,
/// and the value was within the limit.
pub proof fn lemma_control_field_takes_header(s: Seq<u8>, limit: nat)
    ensures
        match parse_control_field(s, limit).result {
            Ok((_, bytes_read)) => 8 <= bytes_read <= 8 + limit && bytes_read <= s.len()
                && parse_control_field(s, limit).rest == s.skip(bytes_read as int),
            Err(_) => true,
        },
{
    let field_type = parse_word(s);
    if field_type.result is Ok {
        let field_len = parse_word(field_type.rest);
        if field_len.result is Ok {
            let len = field_len.result->Ok_0;
            let value = parse_bytes(field_len.rest, len as nat);
            if value.result is Ok {
                assert(s.skip(4).skip(4).skip(len as int) == s.skip(8 + len));
            }
        }
    }
}

/// Reads one control frame: its length, which must lie between four and 512;
/// its control type; and its fields.
pub open spec fn parse_control_frame(s: Seq<u8>) -> Outcome<ControlFrameView> {
    let frame_len = parse_word(s);
    match frame_len.result {
        Err(e) => Outcome { result: Err(e), rest: frame_len.rest },
        Ok(len) => if len > MAX_CONTROL_FRAME_LENGTH {
            Outcome { result: Err(DecodeError::ControlFrameTooLarge { len }), rest: frame_len.rest }
        } else if len < MIN_CONTROL_FRAME_LENGTH {
            Outcome { result: Err(DecodeError::ControlFrameTooShort), rest: frame_len.rest }
        } else {
            let control_type = parse_word(frame_len.rest);
            match control_type.result {
                Err(e) => Outcome { result: Err(e), rest: control_type.rest },
                Ok(t) => {
                    let fields = parse_control_fields(control_type.rest, (len - 4) as nat);
                    match fields.result {
                        Err(e) => Outcome { result: Err(e), rest: fields.rest },
                        Ok(content_types) => Outcome {
                            result: Ok(ControlFrameView { control_type: t, content_types }),
                            rest: fields.rest,
                        },
                    }
                },
            }
        },
    }
}

/// Reads the handshake that opens a stream: a zero word, then a control frame
/// whose type is start.
pub open spec fn parse_start(s: Seq<u8>) -> Outcome<()> {
    let sentinel = parse_word(s);
    match sentinel.result {
        Err(e) => Outcome { result: Err(e), rest: sentinel.rest },
        Ok(n) => if n != 0 {
            Outcome { result: Err(DecodeError::StartNotZero), rest: sentinel.rest }
        } else {
            let frame = parse_control_frame(sentinel.rest);
            match frame.result {
                Err(e) => Outcome { result: Err(e), rest: frame.rest },
                Ok(f) => if f.control_type == CONTROL_START {
                    Outcome { result: Ok(()), rest: frame.rest }
                } else {
                    Outcome { result: Err(DecodeError::ExpectedStart), rest: frame.rest }
                },
            }
        },
    }
}

/// The bytes of a control field whose value is `value`: the content-type
/// code, the length of the value, and the value.
pub open spec fn control_field_bytes(value: Seq<u8>) -> Seq<u8> {
    u32_bytes(CONTROL_FIELD_CONTENT_TYPE) + u32_bytes(value.len() as u32) + value
}

/// The bytes of the control fields with the values `values`, one after the
/// other.
pub open spec fn control_fields_bytes(values: Seq<Seq<u8>>) -> Seq<u8>
    decreases values.len(),
{
    if values.len() == 0 {
        Seq::empty()
    } else {
        control_field_bytes(values[0]) + control_fields_bytes(values.skip(1))
    }
}

/// The bytes of a control frame of type `control_type` whose fields have the
/// values `values`: its length, its control type and its fields. The zero
/// word that announces it in a stream is not part of it.
pub open spec fn control_frame_bytes(control_type: u32, values: Seq<Seq<u8>>) -> Seq<u8> {
    u32_bytes((4 + control_fields_bytes(values).len()) as u32) + u32_bytes(control_type)
        + control_fields_bytes(values)
}

/// The bytes of a data frame that carries `payload`: its length, then the
/// payload as it is.
pub open spec fn data_frame_bytes(payload: Seq<u8>) -> Seq<u8> {
    u32_bytes(payload.len() as u32) + payload
}

/// Whether a control frame with fields of the values `values` is read back
/// whole: it is no longer than a control frame may be, and its last field has
/// a value, since a field that is a bare header at the end of a frame stays
/// unread.
pub open spec fn readable_fields(values: Seq<Seq<u8>>) -> bool {
    &&& 4 + control_fields_bytes(values).len() <= MAX_CONTROL_FRAME_LENGTH
    &&& values.len() > 0 ==> values.last().len() > 0
}

/// The text that lossy decoding makes of each of `values`, in order.
pub open spec fn lossy_texts(values: Seq<Seq<u8>>) -> Seq<Seq<char>> {
    Seq::new(values.len(), |i: int| utf8_lossy(values[i]))
}

} // verus!
