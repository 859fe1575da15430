//! The decoder: a byte source, and the reads that take frames from it.

use crate::constants::{
    CONTROL_FIELD_CONTENT_TYPE, CONTROL_START, CONTROL_STOP, MAX_CONTROL_FRAME_LENGTH,
    MIN_CONTROL_FRAME_LENGTH,
};
use crate::error::DecodeError;
use crate::outside::decode_utf8_lossy;
use crate::session::{next_frame, parse_payload, pull, shortfall, start, DecoderView};
use crate::source::ByteSource;
use crate::wire::{
    budget_after, lemma_control_field_takes_header, parse_control_field, parse_control_fields,
    parse_control_frame, parse_word, ControlFrameView, Outcome,
};
use vstd::prelude::*;

verus! {

/// The payload of one data frame.
#[derive(Debug, PartialEq)]
pub struct Frame {
    data: Vec<u8>,
}

impl View for Frame {
    type V = Seq<u8>;

    closed spec fn view(&self) -> Seq<u8> {
        self.data@
    }
}

impl Frame {
    /// A frame that holds `data`.
    pub fn new(data: Vec<u8>) -> (frame: Self)
        ensures
            frame@ == data@,
    {
        Frame { data }
    }

    /// The bytes of the payload.
    pub fn data(&self) -> (bytes: &[u8])
        ensures
            bytes@ == self@,
    {
        self.data.as_slice()
    }
}

/// The text of each string of `v`, in order.
pub open spec fn texts(v: Seq<String>) -> Seq<Seq<char>> {
    Seq::new(v.len(), |i: int| v[i]@)
}

/// A control frame: its control type and the content types that its fields
/// named.
#[derive(Debug)]
pub struct ControlFrame {
    pub control_type: u32,
    pub content_types: Option<Vec<String>>,
}

impl View for ControlFrame {
    type V = ControlFrameView;

    open spec fn view(&self) -> ControlFrameView {
        ControlFrameView {
            control_type: self.control_type,
            content_types: match self.content_types {
                Some(v) => texts(v@),
                None => Seq::empty(),
            },
        }
    }
}

/// Reads frames from a byte source. `read` and `next` are the two ways to
/// take frames from it, and they keep to the session: they read the handshake
/// first, and nothing once a stop frame has been read. The other reads are
/// the parts that those two are made of; each reads what it is named for from
/// the place where the source stands, whatever the session has come to.
#[derive(Debug)]
pub struct Decoder {
    reader: ByteSource,
    content_type: Option<String>,
    started: bool,
    stopped: bool,
}

impl View for Decoder {
    type V = DecoderView;

    closed spec fn view(&self) -> DecoderView {
        DecoderView {
            input: self.reader@,
            content_type: match self.content_type {
                Some(s) => Some(s@),
                None => None,
            },
            started: self.started,
            stopped: self.stopped,
        }
    }
}

impl Clone for Decoder {
    fn clone(&self) -> (copy: Self)
        ensures
            copy@ == self@,
    {
        let content_type = match &self.content_type {
            Some(ctype) => Some(ctype.clone()),
            None => None,
        };
        Decoder {
            reader: self.reader.clone(),
            content_type,
            started: self.started,
            stopped: self.stopped,
        }
    }
}

/// Whether a read of a control field gave what the wire format says.
pub open spec fn field_as_parsed(
    r: Result<(String, usize), DecodeError>,
    parsed: Result<(Seq<char>, nat), DecodeError>,
) -> bool {
    match (r, parsed) {
        (Ok((text, n)), Ok((t, m))) => text@ == t && n == m,
        (Err(e), Err(f)) => e == f,
        _ => false,
    }
}

/// The outcome `o` with `before` in front of the content types it gives.
spec fn after_fields(before: Seq<Seq<char>>, o: Outcome<Seq<Seq<char>>>) -> Outcome<
    Seq<Seq<char>>,
> {
    match o.result {
        Ok(content_types) => Outcome { result: Ok(before + content_types), rest: o.rest },
        Err(e) => Outcome { result: Err(e), rest: o.rest },
    }
}

/// Whether a read of a control frame gave what the wire format says.
pub open spec fn frame_as_parsed(
    r: Result<ControlFrame, DecodeError>,
    parsed: Result<ControlFrameView, DecodeError>,
) -> bool {
    match (r, parsed) {
        (Ok(frame), Ok(f)) => frame@ == f && frame.content_types is Some,
        (Err(e), Err(f)) => e == f,
        _ => false,
    }
}

impl Decoder {
    /// A decoder that reads `source` from its first byte. It has not started,
    /// has not stopped, and keeps to no content type.
    pub fn new(source: Vec<u8>) -> (decoder: Self)
        ensures
            decoder@ == (DecoderView {
                input: source@,
                content_type: None,
                started: false,
                stopped: false,
            }),
    {
        Decoder {
            reader: ByteSource::new(source),
            content_type: None,
            started: false,
            stopped: false,
        }
    }

    /// Records `ctype` as the content type that the caller wants. Frames are
    /// not held to it; the reads go on as before.
    pub fn content_type(&mut self, ctype: &str)
        ensures
            final(self)@ == (DecoderView { content_type: Some(ctype@), ..old(self)@ }),
    {
        self.content_type = Some(ctype.to_owned());
    }

    /// Adds `bytes` behind what is still unread, for a caller that hands the
    /// stream over piece by piece.
    pub fn feed(&mut self, bytes: &[u8])
        ensures
            final(self)@ == old(self)@.at(old(self)@.input + bytes@),
    {
        self.reader.feed(bytes);
    }

    /// How many bytes more the decoder must be fed before its next read into
    /// a buffer of `capacity` bytes can do its work: what that read would
    /// lack where it would run out of input, and zero where it would not.
    /// Nothing is read. Sequence mode asks with the largest length that a
    /// frame can have, `u32::MAX`.
    pub fn needs(&self, capacity: usize) -> (n: usize)
        ensures
            n == shortfall(self@, capacity as nat),
    {
        if self.stopped {
            return 0;
        }
        let mut probe = self.clone();
        if let Err(e) = probe.read_start_frame() {
            return e.missing();
        }
        let frame_len = match probe.read_frame_length() {
            Ok(n) => n,
            Err(e) => {
                return e.missing();
            },
        };
        if frame_len == 0 {
            match probe.read_control_frame() {
                Ok(_) => 0,
                Err(e) => e.missing(),
            }
        } else if frame_len > capacity {
            0
        } else {
            let available = probe.reader.remaining();
            if available < frame_len {
                frame_len - available
            } else {
                0
            }
        }
    }

    /// Reads the length word that stands before every frame.
    pub fn read_frame_length(&mut self) -> (r: Result<usize, DecodeError>)
        ensures
            final(self)@ == old(self)@.at(parse_word(old(self)@.input).rest),
            match parse_word(old(self)@.input).result {
                Ok(n) => r == Ok::<usize, DecodeError>(n as usize),
                Err(e) => r == Err::<usize, DecodeError>(e),
            },
    {
        let n = self.reader.read_u32()?;
        Ok(n as usize)
    }

    /// Reads one control field whose value may take up to `limit` bytes, and
    /// gives its content type with the bytes that the field took.
    pub fn read_control_field(&mut self, limit: usize) -> (r: Result<(String, usize), DecodeError>)
        ensures
            final(self)@ == old(self)@.at(parse_control_field(old(self)@.input, limit as nat).rest),
            field_as_parsed(r, parse_control_field(old(self)@.input, limit as nat).result),
    {
        let available = self.reader.remaining();
        let field_type = self.reader.read_u32()?;
        if field_type != CONTROL_FIELD_CONTENT_TYPE {
            return Err(DecodeError::UnexpectedFieldType { got: field_type });
        }
        let field_len = self.reader.read_u32()?;
        if field_len as usize > limit {
            return Err(DecodeError::FieldTooLarge { len: field_len, limit });
        }
        let len = field_len as usize;
        if len > available - 8 {
            self.reader.drain();
            return Err(DecodeError::UnexpectedEof { missing: len - (available - 8) });
        }
        let content_type = decode_utf8_lossy(self.reader.peek(len));
        self.reader.advance(len);
        Ok((content_type, 8 + len))
    }

    /// Reads one control frame: its length, its control type and its fields.
    pub fn read_control_frame(&mut self) -> (r: Result<ControlFrame, DecodeError>)
        ensures
            final(self)@ == old(self)@.at(parse_control_frame(old(self)@.input).rest),
            frame_as_parsed(r, parse_control_frame(old(self)@.input).result),
    {
        let frame_len = self.reader.read_u32()?;
        if frame_len > MAX_CONTROL_FRAME_LENGTH {
            return Err(DecodeError::ControlFrameTooLarge { len: frame_len });
        } else if frame_len < MIN_CONTROL_FRAME_LENGTH {
            return Err(DecodeError::ControlFrameTooShort);
        }
        let control_type = self.reader.read_u32()?;

        let mut content_types: Vec<String> = Vec::new();
        let mut remaining: usize = (frame_len - 4) as usize;
        let ghost fields_input = self@.input;
        let ghost fields = parse_control_fields(fields_input, (frame_len - 4) as nat);
        assert(texts(content_types@) =~= Seq::<Seq<char>>::empty());
        assert(after_fields(texts(content_types@), fields).result =~= fields.result);
        while remaining > 8
            invariant
                self@ == old(self)@.at(self@.input),
                parse_control_frame(old(self)@.input).rest == fields.rest,
                parse_control_frame(old(self)@.input).result == match fields.result {
                    Ok(content_types) => Ok(ControlFrameView { control_type, content_types }),
                    Err(e) => Err(e),
                },
                fields == after_fields(
                    texts(content_types@),
                    parse_control_fields(self@.input, remaining as nat),
                ),
            decreases remaining,
        {
            proof {
                lemma_control_field_takes_header(self@.input, remaining as nat);
            }
            let ghost before = texts(content_types@);
            let ghost budget = remaining as nat;
            let (content_type, bytes_read) = match self.read_control_field(remaining) {
                Ok(field) => field,
                Err(e) => {
                    return Err(e);
                },
            };
            content_types.push(content_type);
            remaining = if bytes_read <= remaining {
                remaining - bytes_read
            } else {
                0
            };
            proof {
                let others = parse_control_fields(self@.input, remaining as nat);
                assert(texts(content_types@) =~= before.push(content_type@));
                assert(remaining == budget_after(budget, bytes_read as nat));
                if others.result is Ok {
                    assert(before + (seq![content_type@] + others.result->Ok_0) =~= before.push(
                        content_type@,
                    ) + others.result->Ok_0);
                }
            }
        }
        Ok(ControlFrame { control_type, content_types: Some(content_types) })
    }

    /// Reads the handshake that opens the stream, unless it has been read: a
    /// decoder that has started is left as it is. The decoder has started
    /// once the handshake has been read without error.
    pub fn read_start_frame(&mut self) -> (r: Result<(), DecodeError>)
        ensures
            r == start(old(self)@).output,
            final(self)@ == start(old(self)@).state,
            old(self)@.started ==> r is Ok && final(self)@ == old(self)@,
    {
        if self.started {
            return Ok(());
        }
        let n = self.reader.read_u32()?;
        if n != 0 {
            return Err(DecodeError::StartNotZero);
        }
        let frame = self.read_control_frame()?;
        if frame.control_type == CONTROL_START {
            self.started = true;
            Ok(())
        } else {
            Err(DecodeError::ExpectedStart)
        }
    }

    /// Reads the payload of a data frame of `n` bytes into the front of
    /// `buf`, and gives `n`. The rest of `buf` stays as it was, and so does
    /// all of it where the read fails.
    pub fn read_n(&mut self, n: usize, buf: &mut [u8]) -> (r: Result<usize, DecodeError>)
        ensures
            final(self)@ == old(self)@.at(
                parse_payload(old(self)@.input, n as nat, old(buf)@.len()).rest,
            ),
            match parse_payload(old(self)@.input, n as nat, old(buf)@.len()).result {
                Ok(payload) => r == Ok::<usize, DecodeError>(n) && final(buf)@ == payload + old(
                    buf,
                )@.skip(n as int),
                Err(e) => r == Err::<usize, DecodeError>(e) && final(buf)@ == old(buf)@,
            },
    {
        if n > buf.len() {
            Err(DecodeError::BufferTooSmall)
        } else {
            match self.reader.read_exact(n, buf) {
                Ok(_) => Ok(n),
                Err(e) => Err(e),
            }
        }
    }

    /// Pull mode: reads the next frame, after the handshake if that is still
    /// to come. The payload of a data frame is written to the front of `buf`
    /// and its length is given. A stop frame ends the session: the read that
    /// meets it gives 0, and so does every read after it, which reads no
    /// byte. Any other control frame fails the read. Where 0 or an error is
    /// given, `buf` is left as it was.
    pub fn read(&mut self, buf: &mut [u8]) -> (r: Result<usize, DecodeError>)
        ensures
            final(self)@ == pull(old(self)@, old(buf)@.len()).state,
            match pull(old(self)@, old(buf)@.len()).output {
                Ok(payload) => r == Ok::<usize, DecodeError>(payload.len() as usize)
                    && payload.len() <= old(buf)@.len() && final(buf)@ == payload + old(buf)@.skip(
                    payload.len() as int,
                ),
                Err(e) => r == Err::<usize, DecodeError>(e) && final(buf)@ == old(buf)@,
            },
            old(self)@.stopped ==> r == Ok::<usize, DecodeError>(0) && final(self)@ == old(self)@
                && final(buf)@ == old(buf)@,
    {
        assert(Seq::<u8>::empty() + buf@.skip(0) =~= buf@);
        if self.stopped {
            return Ok(0);
        }
        self.read_start_frame()?;
        let frame_len = self.read_frame_length()?;
        if frame_len == 0 {
            let frame = self.read_control_frame()?;
            if frame.control_type == CONTROL_STOP {
                self.stopped = true;
                return Ok(0);
            }
            return Err(DecodeError::UnexpectedControlFrame { control_type: frame.control_type });
        }
        self.read_n(frame_len, buf)
    }

    /// Sequence mode: gives the payload of the next data frame, after the
    /// handshake if that is still to come. A stop frame ends the session:
    /// the step that meets it gives nothing, and so does every step after
    /// it, which reads no byte. A step whose read fails gives nothing
    /// either. A frame that is given is never empty.
    pub fn next(&mut self) -> (r: Option<Frame>)
        ensures
            final(self)@ == next_frame(old(self)@).state,
            match next_frame(old(self)@).output {
                Some(payload) => r is Some && r->Some_0@ == payload,
                None => r is None,
            },
            old(self)@.stopped ==> r is None && final(self)@ == old(self)@,
            r is Some ==> r->Some_0@.len() > 0,
    {
        if self.stopped {
            return None;
        }
        if self.read_start_frame().is_err() {
            return None;
        }
        let frame_len = match self.read_frame_length() {
            Ok(n) => n,
            Err(_) => {
                return None;
            },
        };
        if frame_len == 0 {
            match self.read_control_frame() {
                Ok(frame) => {
                    if frame.control_type == CONTROL_STOP {
                        self.stopped = true;
                    }
                },
                Err(_) => {},
            }
            return None;
        }
        match self.reader.read_vec(frame_len) {
            Ok(data) => Some(Frame { data }),
            Err(_) => None,
        }
    }
}

} // verus!
