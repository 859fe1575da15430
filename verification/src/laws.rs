//! What holds of the wire format and of a session, for every stream.

use crate::constants::{
    CONTROL_FIELD_CONTENT_TYPE, CONTROL_START, CONTROL_STOP, MAX_CONTROL_FRAME_LENGTH,
    MIN_CONTROL_FRAME_LENGTH,
};
use crate::error::DecodeError;
use crate::session::{
    after_frames, after_pulls, data_frames_bytes, next_frame, parse_payload, pull, sendable,
    session_bytes, shortfall, start, stop_bytes, stream_bytes, DecoderView, Step,
};
use crate::wire::{
    be_u32, budget_after, control_field_bytes, lemma_control_field_takes_header, control_fields_bytes, control_frame_bytes,
    data_frame_bytes, lossy_texts, parse_bytes, parse_control_field, parse_control_fields,
    parse_control_frame, parse_start, parse_word, readable_fields, u32_bytes, utf8_lossy,
    ControlFrameView, Outcome,
};
use vstd::prelude::*;

verus! {

/// A word that was written is read back, and what follows it is left.
pub proof fn lemma_word_round_trip(n: u32, tail: Seq<u8>)
    ensures
        u32_bytes(n).len() == 4,
        be_u32(u32_bytes(n)) == n,
        parse_word(u32_bytes(n) + tail) == (Outcome { result: Ok(n), rest: tail }),
{
    let s = u32_bytes(n) + tail;
    assert(s[0] == u32_bytes(n)[0]);
    assert(s[1] == u32_bytes(n)[1]);
    assert(s[2] == u32_bytes(n)[2]);
    assert(s[3] == u32_bytes(n)[3]);
    assert(s.skip(4) =~= tail);
}

/// Bytes that were written are read back, and what follows them is left.
pub proof fn lemma_bytes_round_trip(bytes: Seq<u8>, tail: Seq<u8>)
    ensures
        parse_bytes(bytes + tail, bytes.len()) == (Outcome { result: Ok(bytes), rest: tail }),
{
    let s = bytes + tail;
    assert(s.take(bytes.len() as int) =~= bytes);
    assert(s.skip(bytes.len() as int) =~= tail);
}

/// A control field that was written is read back under every limit that its
/// value meets.
pub proof fn lemma_control_field_round_trip(value: Seq<u8>, limit: nat, tail: Seq<u8>)
    requires
        value.len() <= limit,
        value.len() <= u32::MAX,
    ensures
        control_field_bytes(value).len() == 8 + value.len(),
        parse_control_field(control_field_bytes(value) + tail, limit) == (Outcome {
            result: Ok((utf8_lossy(value), 8 + value.len())),
            rest: tail,
        }),
{
    let len = value.len() as u32;
    let s = control_field_bytes(value) + tail;
    let after_type = u32_bytes(len) + (value + tail);
    lemma_word_round_trip(CONTROL_FIELD_CONTENT_TYPE, after_type);
    assert(s =~= u32_bytes(CONTROL_FIELD_CONTENT_TYPE) + after_type);
    lemma_word_round_trip(len, value + tail);
    lemma_bytes_round_trip(value, tail);
}

/// The fields of a control frame take eight bytes each and their values.
pub proof fn lemma_control_fields_len(values: Seq<Seq<u8>>)
    ensures
        control_fields_bytes(values).len() >= 8 * values.len(),
        forall|i: int|
            0 <= i < values.len() ==> 8 + (#[trigger] values[i]).len() <= control_fields_bytes(
                values,
            ).len(),
    decreases values.len(),
{
    if values.len() > 0 {
        let others = values.skip(1);
        lemma_control_fields_len(others);
        assert forall|i: int| 0 <= i < values.len() implies 8 + (#[trigger] values[i]).len()
            <= control_fields_bytes(values).len() by {
            if i > 0 {
                assert(values[i] == others[i - 1]);
            }
        }
    }
}

/// The fields of a control frame that were written are read back in order,
/// each as lossy decoding gives it, where the budget is the length of what was
/// written and the frame is one that is read back whole.
pub proof fn lemma_control_fields_round_trip(values: Seq<Seq<u8>>, tail: Seq<u8>)
    requires
        readable_fields(values),
    ensures
        parse_control_fields(
            control_fields_bytes(values) + tail,
            control_fields_bytes(values).len(),
        ) == (Outcome { result: Ok(lossy_texts(values)), rest: tail }),
    decreases values.len(),
{
    let s = control_fields_bytes(values) + tail;
    let remaining = control_fields_bytes(values).len();
    if values.len() == 0 {
        assert(s =~= tail);
        assert(lossy_texts(values) =~= Seq::<Seq<char>>::empty());
    } else {
        let value = values[0];
        let others = values.skip(1);
        let after = control_fields_bytes(others) + tail;
        let left = control_fields_bytes(others).len();
        lemma_control_fields_len(others);
        assert(remaining == 8 + value.len() + left);
        if others.len() > 0 {
            assert(others.last() == values.last());
        } else {
            assert(value == values.last());
        }
        assert(readable_fields(others));
        assert(remaining > 8);
        lemma_control_field_round_trip(value, remaining, after);
        assert(s =~= control_field_bytes(value) + after);
        lemma_control_fields_round_trip(others, tail);
        assert(lossy_texts(values) =~= seq![utf8_lossy(value)] + lossy_texts(others));
        let field = parse_control_field(s, remaining);
        assert(field.result == Ok::<(Seq<char>, nat), DecodeError>(
            (utf8_lossy(value), 8 + value.len()),
        ));
        assert(field.rest == after);
        assert(budget_after(remaining, 8 + value.len()) == left);
    }
}

/// A control frame that was written is read back: its control type, and the
/// content types of its fields.
pub proof fn lemma_control_frame_round_trip(
    control_type: u32,
    values: Seq<Seq<u8>>,
    tail: Seq<u8>,
)
    requires
        readable_fields(values),
    ensures
        parse_control_frame(control_frame_bytes(control_type, values) + tail) == (Outcome {
            result: Ok(ControlFrameView { control_type, content_types: lossy_texts(values) }),
            rest: tail,
        }),
{
    let fields = control_fields_bytes(values);
    let len = (4 + fields.len()) as u32;
    let s = control_frame_bytes(control_type, values) + tail;
    let after_len = u32_bytes(control_type) + (fields + tail);
    assert(s =~= u32_bytes(len) + after_len);
    lemma_word_round_trip(len, after_len);
    lemma_word_round_trip(control_type, fields + tail);
    lemma_control_fields_round_trip(values, tail);
}

/// The handshake that opens a stream is read, and what follows it is left.
pub proof fn lemma_start_round_trip(values: Seq<Seq<u8>>, tail: Seq<u8>)
    requires
        readable_fields(values),
    ensures
        parse_start(u32_bytes(0) + control_frame_bytes(CONTROL_START, values) + tail) == (Outcome {
            result: Ok(()),
            rest: tail,
        }),
{
    let frame = control_frame_bytes(CONTROL_START, values) + tail;
    assert(u32_bytes(0) + control_frame_bytes(CONTROL_START, values) + tail =~= u32_bytes(0)
        + frame);
    lemma_word_round_trip(0, frame);
    lemma_control_frame_round_trip(CONTROL_START, values, tail);
}

/// A control frame is held to its bounds: one that declares more than 512
/// bytes or fewer than four is rejected once its length has been read, and
/// one of four bytes is its control type alone.
pub proof fn lemma_control_frame_bounds(len: u32, tail: Seq<u8>)
    ensures
        len > MAX_CONTROL_FRAME_LENGTH ==> parse_control_frame(u32_bytes(len) + tail) == (Outcome::<ControlFrameView> {
            result: Err(DecodeError::ControlFrameTooLarge { len }),
            rest: tail,
        }),
        len < MIN_CONTROL_FRAME_LENGTH ==> parse_control_frame(u32_bytes(len) + tail) == (Outcome::<ControlFrameView> {
            result: Err(DecodeError::ControlFrameTooShort),
            rest: tail,
        }),
        len == MIN_CONTROL_FRAME_LENGTH && tail.len() >= 4 ==> parse_control_frame(u32_bytes(len) + tail) == (Outcome {
            result: Ok(
                ControlFrameView { control_type: be_u32(tail), content_types: Seq::empty() },
            ),
            rest: tail.skip(4),
        }),
{
    lemma_word_round_trip(len, tail);
}

/// A control field is held to its type and to its limit: a type other than
/// content type is rejected once it has been read, and so is a length above
/// the limit.
pub proof fn lemma_control_field_checks(field_type: u32, len: u32, limit: nat, tail: Seq<u8>)
    ensures
        field_type != CONTROL_FIELD_CONTENT_TYPE ==> parse_control_field(u32_bytes(field_type) + tail, limit) == (Outcome::<
            (Seq<char>, nat),
        > { result: Err(DecodeError::UnexpectedFieldType { got: field_type }), rest: tail }),
        len > limit ==> parse_control_field(
            u32_bytes(CONTROL_FIELD_CONTENT_TYPE) + (u32_bytes(len) + tail),
            limit,
        ) == (Outcome::<(Seq<char>, nat)> {
            result: Err(DecodeError::FieldTooLarge { len, limit: limit as usize }),
            rest: tail,
        }),
{
    lemma_word_round_trip(field_type, tail);
    lemma_word_round_trip(CONTROL_FIELD_CONTENT_TYPE, u32_bytes(len) + tail);
    lemma_word_round_trip(len, tail);
}

/// The length word alone tells control frames from data frames. After a zero
/// word a decoder in an open session reads a control frame, whatever follows:
/// a stop frame closes the session, and any other fails the read. After any
/// other word it reads that many bytes of payload, whatever they are.
pub proof fn lemma_length_word_dispatches(v: DecoderView, len: u32, tail: Seq<u8>, capacity: nat)
    requires
        v.started,
        !v.stopped,
        v.input == u32_bytes(len) + tail,
    ensures
        len == 0 ==> pull(v, capacity) == match parse_control_frame(tail).result {
            Ok(f) => if f.control_type == CONTROL_STOP {
                Step {
                    output: Ok::<Seq<u8>, DecodeError>(Seq::empty()),
                    state: v.stopped_at(parse_control_frame(tail).rest),
                }
            } else {
                Step {
                    output: Err(
                        DecodeError::UnexpectedControlFrame { control_type: f.control_type },
                    ),
                    state: v.at(parse_control_frame(tail).rest),
                }
            },
            Err(e) => Step { output: Err(e), state: v.at(parse_control_frame(tail).rest) },
        },
        len != 0 ==> pull(v, capacity) == (Step {
            output: parse_payload(tail, len as nat, capacity).result,
            state: v.at(parse_payload(tail, len as nat, capacity).rest),
        }),
        len == 0 ==> next_frame(v).output is None,
        len != 0 ==> next_frame(v).output == match parse_bytes(tail, len as nat).result {
            Ok(payload) => Some(payload),
            Err(_) => None,
        },
{
    lemma_word_round_trip(len, tail);
    if len != 0 && tail.len() >= len {
        assert(tail.take(len as int).len() == len);
    }
}

/// No control frame is handed to the caller. A frame that sequence mode gives
/// is the payload of a data frame, and is not empty; a length of zero from
/// pull mode is the end of the session, and nothing else.
pub proof fn lemma_control_frames_stay_inside(v: DecoderView, capacity: nat)
    ensures
        next_frame(v).output is Some ==> next_frame(v).output->Some_0.len() > 0,
        next_frame(v).output is Some ==> !next_frame(v).state.stopped,
        pull(v, capacity).output == Ok::<Seq<u8>, DecodeError>(Seq::empty()) ==> pull(
            v,
            capacity,
        ).state.stopped,
{
    lemma_pull_gives_no_empty_payload(v, capacity);
    lemma_pull_gives_no_empty_payload(v, u32::MAX as nat);
}

/// A payload that pull mode gives is empty only where the session has ended.
proof fn lemma_pull_gives_no_empty_payload(v: DecoderView, capacity: nat)
    ensures
        match pull(v, capacity).output {
            Ok(payload) => payload.len() == 0 <==> pull(v, capacity).state.stopped,
            Err(_) => !pull(v, capacity).state.stopped || v.stopped,
        },
{
    if !v.stopped {
        let started = start(v);
        if started.output is Ok {
            let frame_len = parse_word(started.state.input);
            if frame_len.result is Ok {
                let n = frame_len.result->Ok_0;
                if n != 0 && n <= capacity && frame_len.rest.len() >= n {
                    assert(frame_len.rest.take(n as int).len() == n);
                }
            }
        }
    }
}

/// Reading the handshake twice is reading it once: a decoder that has started
/// is left as it is, with no byte read and no error.
pub proof fn lemma_start_is_idempotent(v: DecoderView)
    ensures
        v.started ==> start(v) == (Step { output: Ok::<(), DecodeError>(()), state: v }),
        start(v).output is Ok ==> start(start(v).state) == start(v),
{
}

/// A session that has stopped stays stopped. Once a stop frame has been read,
/// sequence mode gives nothing and pull mode gives a length of zero, whatever
/// is left unread, and neither reads a byte or changes the decoder.
pub proof fn lemma_stopped_is_final(v: DecoderView, capacity: nat)
    requires
        v.stopped,
    ensures
        next_frame(v) == (Step { output: None::<Seq<u8>>, state: v }),
        pull(v, capacity) == (Step { output: Ok::<Seq<u8>, DecodeError>(Seq::empty()), state: v }),
{
}

/// However many reads follow in either mode, a decoder that has stopped is
/// the decoder it was.
pub proof fn lemma_stopped_stays(v: DecoderView, capacity: nat, k: nat)
    requires
        v.stopped,
    ensures
        after_frames(v, k) == v,
        after_pulls(v, capacity, k) == v,
    decreases k,
{
    if k > 0 {
        lemma_stopped_stays(v, capacity, (k - 1) as nat);
        lemma_stopped_is_final(v, capacity);
    }
}

/// A stop frame ends the session, whatever stands behind it. The call that
/// reads it gives nothing in sequence mode and a length of zero in pull mode,
/// and leaves the decoder stopped with what stood behind the frame unread.
pub proof fn lemma_stop_ends_session(
    v: DecoderView,
    values: Seq<Seq<u8>>,
    tail: Seq<u8>,
    capacity: nat,
)
    requires
        v.started,
        !v.stopped,
        v.input == stop_bytes(values) + tail,
        readable_fields(values),
    ensures
        next_frame(v) == (Step { output: None::<Seq<u8>>, state: v.stopped_at(tail) }),
        pull(v, capacity) == (Step {
            output: Ok::<Seq<u8>, DecodeError>(Seq::empty()),
            state: v.stopped_at(tail),
        }),
{
    let frame = control_frame_bytes(CONTROL_STOP, values) + tail;
    assert(v.input =~= u32_bytes(0) + frame);
    lemma_word_round_trip(0, frame);
    lemma_control_frame_round_trip(CONTROL_STOP, values, tail);
}

/// Once a stop frame has been read, no call gives anything more, whatever
/// stands behind the frame: sequence mode gives no frame and pull mode a
/// length of zero, at the call that reads the stop frame and at every call
/// after it.
pub proof fn lemma_nothing_after_stop(
    v: DecoderView,
    values: Seq<Seq<u8>>,
    tail: Seq<u8>,
    capacity: nat,
    k: nat,
)
    requires
        v.started,
        !v.stopped,
        v.input == stop_bytes(values) + tail,
        readable_fields(values),
    ensures
        next_frame(after_frames(v, k)).output is None,
        pull(after_pulls(v, capacity, k), capacity).output == Ok::<Seq<u8>, DecodeError>(
            Seq::empty(),
        ),
        k > 0 ==> after_frames(v, k) == v.stopped_at(tail),
        k > 0 ==> after_pulls(v, capacity, k) == v.stopped_at(tail),
{
    lemma_stop_ends_session(v, values, tail, capacity);
    if k > 0 {
        lemma_after_frames_shifts(v, (k - 1) as nat);
        lemma_after_pulls_shifts(v, capacity, (k - 1) as nat);
        lemma_stopped_stays(v.stopped_at(tail), capacity, (k - 1) as nat);
        lemma_stopped_is_final(v.stopped_at(tail), capacity);
    }
}

/// A data frame that was written is read back by a decoder in an open
/// session: sequence mode gives its payload, and so does pull mode where the
/// buffer holds it. What follows the frame is left.
pub proof fn lemma_data_frame_round_trip(
    v: DecoderView,
    payload: Seq<u8>,
    tail: Seq<u8>,
    capacity: nat,
)
    requires
        v.started,
        !v.stopped,
        v.input == data_frame_bytes(payload) + tail,
        0 < payload.len() <= u32::MAX,
    ensures
        next_frame(v) == (Step { output: Some(payload), state: v.at(tail) }),
        payload.len() <= capacity ==> pull(v, capacity) == (Step {
            output: Ok::<Seq<u8>, DecodeError>(payload),
            state: v.at(tail),
        }),
        payload.len() > capacity ==> pull(v, capacity) == (Step {
            output: Err::<Seq<u8>, DecodeError>(DecodeError::BufferTooSmall),
            state: v.at(payload + tail),
        }),
{
    assert(v.input =~= u32_bytes(payload.len() as u32) + (payload + tail));
    lemma_word_round_trip(payload.len() as u32, payload + tail);
    lemma_bytes_round_trip(payload, tail);
}

/// The first step of a decoder that has not started is the first step of the
/// decoder that stands behind the handshake.
pub proof fn lemma_handshake_is_absorbed(
    v: DecoderView,
    values: Seq<Seq<u8>>,
    tail: Seq<u8>,
    capacity: nat,
)
    requires
        !v.started,
        !v.stopped,
        v.input == u32_bytes(0) + control_frame_bytes(CONTROL_START, values) + tail,
        readable_fields(values),
    ensures
        start(v) == (Step {
            output: Ok::<(), DecodeError>(()),
            state: DecoderView { input: tail, started: true, ..v },
        }),
        next_frame(v) == next_frame(DecoderView { input: tail, started: true, ..v }),
        pull(v, capacity) == pull(DecoderView { input: tail, started: true, ..v }, capacity),
{
    lemma_start_round_trip(values, tail);
}

/// Steps in sequence mode add up: `k` steps after the first are `k + 1` steps.
pub proof fn lemma_after_frames_shifts(v: DecoderView, k: nat)
    ensures
        after_frames(v, k + 1) == after_frames(next_frame(v).state, k),
    decreases k,
{
    if k > 0 {
        lemma_after_frames_shifts(v, (k - 1) as nat);
    } else {
        assert(after_frames(v, 1) == next_frame(after_frames(v, 0)).state);
    }
}

/// Reads in pull mode add up: `k` reads after the first are `k + 1` reads.
pub proof fn lemma_after_pulls_shifts(v: DecoderView, capacity: nat, k: nat)
    ensures
        after_pulls(v, capacity, k + 1) == after_pulls(pull(v, capacity).state, capacity, k),
    decreases k,
{
    if k > 0 {
        lemma_after_pulls_shifts(v, capacity, (k - 1) as nat);
    } else {
        assert(after_pulls(v, capacity, 1) == pull(after_pulls(v, capacity, 0), capacity).state);
    }
}

/// A decoder in an open session gives the data frames before a stop frame in
/// sequence mode, each payload at its step and in the order in which they
/// were written, and nothing from then on, whatever stands behind the stop
/// frame.
pub proof fn lemma_frames_come_in_order(
    v: DecoderView,
    payloads: Seq<Seq<u8>>,
    stop_values: Seq<Seq<u8>>,
    tail: Seq<u8>,
    k: nat,
)
    requires
        v.started,
        !v.stopped,
        v.input == data_frames_bytes(payloads) + stop_bytes(stop_values) + tail,
        sendable(payloads),
        readable_fields(stop_values),
    ensures
        next_frame(after_frames(v, k)).output == if k < payloads.len() {
            Some(payloads[k as int])
        } else {
            None
        },
    decreases k,
{
    if payloads.len() == 0 {
        assert(v.input =~= stop_bytes(stop_values) + tail);
        lemma_nothing_after_stop(v, stop_values, tail, 0, k);
    } else {
        let others = payloads.skip(1);
        let rest = data_frames_bytes(others) + stop_bytes(stop_values) + tail;
        assert(v.input =~= data_frame_bytes(payloads[0]) + rest);
        lemma_data_frame_round_trip(v, payloads[0], rest, 0);
        if k > 0 {
            assert forall|i: int| 0 <= i < others.len() implies 0 < (#[trigger] others[i]).len()
                <= u32::MAX by {
                assert(others[i] == payloads[i + 1]);
            }
            lemma_after_frames_shifts(v, (k - 1) as nat);
            lemma_frames_come_in_order(v.at(rest), others, stop_values, tail, (k - 1) as nat);
            if k < payloads.len() {
                assert(others[k - 1] == payloads[k as int]);
            }
        }
    }
}

/// A decoder in an open session gives the data frames before a stop frame in
/// pull mode, each payload at its read and in the order in which they were
/// written, where the buffer holds every one of them. The read after the last
/// payload gives a length of zero, and so does every later one, whatever
/// stands behind the stop frame.
pub proof fn lemma_payloads_come_in_order(
    v: DecoderView,
    payloads: Seq<Seq<u8>>,
    stop_values: Seq<Seq<u8>>,
    tail: Seq<u8>,
    capacity: nat,
    k: nat,
)
    requires
        v.started,
        !v.stopped,
        v.input == data_frames_bytes(payloads) + stop_bytes(stop_values) + tail,
        sendable(payloads),
        forall|i: int| 0 <= i < payloads.len() ==> (#[trigger] payloads[i]).len() <= capacity,
        readable_fields(stop_values),
    ensures
        pull(after_pulls(v, capacity, k), capacity).output == if k < payloads.len() {
            Ok::<Seq<u8>, DecodeError>(payloads[k as int])
        } else {
            Ok(Seq::empty())
        },
    decreases k,
{
    if payloads.len() == 0 {
        assert(v.input =~= stop_bytes(stop_values) + tail);
        lemma_nothing_after_stop(v, stop_values, tail, capacity, k);
    } else {
        let others = payloads.skip(1);
        let rest = data_frames_bytes(others) + stop_bytes(stop_values) + tail;
        assert(v.input =~= data_frame_bytes(payloads[0]) + rest);
        lemma_data_frame_round_trip(v, payloads[0], rest, capacity);
        if k > 0 {
            assert forall|i: int| 0 <= i < others.len() implies 0 < (#[trigger] others[i]).len()
                <= u32::MAX && others[i].len() <= capacity by {
                assert(others[i] == payloads[i + 1]);
            }
            lemma_after_pulls_shifts(v, capacity, (k - 1) as nat);
            lemma_payloads_come_in_order(
                v.at(rest),
                others,
                stop_values,
                tail,
                capacity,
                (k - 1) as nat,
            );
            if k < payloads.len() {
                assert(others[k - 1] == payloads[k as int]);
            }
        }
    }
}

/// A whole session is read back in sequence mode: after the handshake, step
/// `k` gives the payload of data frame `k`, and the steps after the last data
/// frame give nothing, whatever stands behind the stop frame.
pub proof fn lemma_stream_round_trip(
    v: DecoderView,
    start_values: Seq<Seq<u8>>,
    payloads: Seq<Seq<u8>>,
    stop_values: Seq<Seq<u8>>,
    tail: Seq<u8>,
    k: nat,
)
    requires
        !v.started,
        !v.stopped,
        v.input == stream_bytes(start_values, payloads, stop_values) + tail,
        readable_fields(start_values),
        sendable(payloads),
        readable_fields(stop_values),
    ensures
        next_frame(after_frames(v, k)).output == if k < payloads.len() {
            Some(payloads[k as int])
        } else {
            None
        },
{
    let rest = data_frames_bytes(payloads) + stop_bytes(stop_values) + tail;
    let opened = DecoderView { input: rest, started: true, ..v };
    assert(v.input =~= u32_bytes(0) + control_frame_bytes(CONTROL_START, start_values) + rest);
    lemma_handshake_is_absorbed(v, start_values, rest, 0);
    if k > 0 {
        lemma_after_frames_shifts(v, (k - 1) as nat);
        lemma_after_frames_shifts(opened, (k - 1) as nat);
    }
    lemma_frames_come_in_order(opened, payloads, stop_values, tail, k);
}

/// A whole session is read back in pull mode, where the buffer holds every
/// payload: after the handshake, read `k` gives the payload of data frame `k`,
/// and the reads after the last data frame give a length of zero, whatever
/// stands behind the stop frame.
pub proof fn lemma_stream_pull_round_trip(
    v: DecoderView,
    start_values: Seq<Seq<u8>>,
    payloads: Seq<Seq<u8>>,
    stop_values: Seq<Seq<u8>>,
    tail: Seq<u8>,
    capacity: nat,
    k: nat,
)
    requires
        !v.started,
        !v.stopped,
        v.input == stream_bytes(start_values, payloads, stop_values) + tail,
        readable_fields(start_values),
        sendable(payloads),
        forall|i: int| 0 <= i < payloads.len() ==> (#[trigger] payloads[i]).len() <= capacity,
        readable_fields(stop_values),
    ensures
        pull(after_pulls(v, capacity, k), capacity).output == if k < payloads.len() {
            Ok::<Seq<u8>, DecodeError>(payloads[k as int])
        } else {
            Ok(Seq::empty())
        },
{
    let rest = data_frames_bytes(payloads) + stop_bytes(stop_values) + tail;
    let opened = DecoderView { input: rest, started: true, ..v };
    assert(v.input =~= u32_bytes(0) + control_frame_bytes(CONTROL_START, start_values) + rest);
    lemma_handshake_is_absorbed(v, start_values, rest, capacity);
    if k > 0 {
        lemma_after_pulls_shifts(v, capacity, (k - 1) as nat);
        lemma_after_pulls_shifts(opened, capacity, (k - 1) as nat);
    }
    lemma_payloads_come_in_order(opened, payloads, stop_values, tail, capacity, k);
}

/// A session with one data frame is read back in pull mode. The first read
/// gives the payload where the buffer holds it, and fails where the buffer is
/// too small. Every read after the payload gives a length of zero, whatever
/// stands behind the stop frame.
pub proof fn lemma_pull_round_trip(
    v: DecoderView,
    start_values: Seq<Seq<u8>>,
    payload: Seq<u8>,
    stop_values: Seq<Seq<u8>>,
    tail: Seq<u8>,
    capacity: nat,
    k: nat,
)
    requires
        !v.started,
        !v.stopped,
        v.input == session_bytes(start_values, payload, stop_values) + tail,
        readable_fields(start_values),
        readable_fields(stop_values),
        0 < payload.len() <= u32::MAX,
    ensures
        payload.len() <= capacity ==> pull(v, capacity).output == Ok::<Seq<u8>, DecodeError>(
            payload,
        ),
        payload.len() <= capacity ==> pull(
            after_pulls(pull(v, capacity).state, capacity, k),
            capacity,
        ).output == Ok::<Seq<u8>, DecodeError>(Seq::empty()),
        payload.len() > capacity ==> pull(v, capacity).output == Err::<Seq<u8>, DecodeError>(
            DecodeError::BufferTooSmall,
        ),
{
    let stop = stop_bytes(stop_values) + tail;
    let rest = data_frame_bytes(payload) + stop;
    let opened = DecoderView { input: rest, started: true, ..v };
    assert(v.input =~= u32_bytes(0) + control_frame_bytes(CONTROL_START, start_values) + rest);
    lemma_handshake_is_absorbed(v, start_values, rest, capacity);
    lemma_data_frame_round_trip(opened, payload, stop, capacity);
    lemma_nothing_after_stop(opened.at(stop), stop_values, tail, capacity, k);
}

/// A session with one data frame is read back in sequence mode. The first
/// step gives the payload, and every step after it gives nothing, whatever
/// stands behind the stop frame.
pub proof fn lemma_sequence_round_trip(
    v: DecoderView,
    start_values: Seq<Seq<u8>>,
    payload: Seq<u8>,
    stop_values: Seq<Seq<u8>>,
    tail: Seq<u8>,
    k: nat,
)
    requires
        !v.started,
        !v.stopped,
        v.input == session_bytes(start_values, payload, stop_values) + tail,
        readable_fields(start_values),
        readable_fields(stop_values),
        0 < payload.len() <= u32::MAX,
    ensures
        next_frame(v).output == Some(payload),
        next_frame(after_frames(next_frame(v).state, k)).output is None,
{
    let stop = stop_bytes(stop_values) + tail;
    let rest = data_frame_bytes(payload) + stop;
    let opened = DecoderView { input: rest, started: true, ..v };
    assert(v.input =~= u32_bytes(0) + control_frame_bytes(CONTROL_START, start_values) + rest);
    lemma_handshake_is_absorbed(v, start_values, rest, 0);
    lemma_data_frame_round_trip(opened, payload, stop, 0);
    lemma_nothing_after_stop(opened.at(stop), stop_values, tail, 0, k);
}

/// A word that was read is the same word whatever follows.
pub proof fn lemma_word_settled(s: Seq<u8>, more: Seq<u8>)
    requires
        !parse_word(s).ran_out(),
    ensures
        parse_word(s + more) == parse_word(s).followed_by(more),
{
    let t = s + more;
    assert(t[0] == s[0] && t[1] == s[1] && t[2] == s[2] && t[3] == s[3]);
    assert(t.skip(4) =~= s.skip(4) + more);
}

/// Bytes that were read are the same bytes whatever follows.
pub proof fn lemma_bytes_settled(s: Seq<u8>, n: nat, more: Seq<u8>)
    requires
        !parse_bytes(s, n).ran_out(),
    ensures
        parse_bytes(s + more, n) == parse_bytes(s, n).followed_by(more),
{
    let t = s + more;
    assert(t.take(n as int) =~= s.take(n as int));
    assert(t.skip(n as int) =~= s.skip(n as int) + more);
}

/// A control field that was read, or refused for what it holds, is read or
/// refused in the same way whatever follows.
pub proof fn lemma_control_field_settled(s: Seq<u8>, limit: nat, more: Seq<u8>)
    requires
        !parse_control_field(s, limit).ran_out(),
    ensures
        parse_control_field(s + more, limit) == parse_control_field(s, limit).followed_by(more),
{
    lemma_word_settled(s, more);
    let field_type = parse_word(s);
    if field_type.result == Ok::<u32, DecodeError>(CONTROL_FIELD_CONTENT_TYPE) {
        lemma_word_settled(field_type.rest, more);
        let field_len = parse_word(field_type.rest);
        let len = field_len.result->Ok_0;
        if len <= limit {
            lemma_bytes_settled(field_len.rest, len as nat, more);
        }
    }
}

/// The fields of a control frame that were read, or refused for what they
/// hold, are read or refused in the same way whatever follows.
pub proof fn lemma_control_fields_settled(s: Seq<u8>, remaining: nat, more: Seq<u8>)
    requires
        !parse_control_fields(s, remaining).ran_out(),
    ensures
        parse_control_fields(s + more, remaining) == parse_control_fields(
            s,
            remaining,
        ).followed_by(more),
    decreases remaining,
{
    if remaining > 8 {
        let field = parse_control_field(s, remaining);
        lemma_control_field_settled(s, remaining, more);
        if field.result is Ok {
            let bytes_read = field.result->Ok_0.1;
            lemma_control_field_takes_header(s, remaining);
            lemma_control_fields_settled(field.rest, budget_after(remaining, bytes_read), more);
        }
    }
}

/// A control frame that was read, or refused for what it holds, is read or
/// refused in the same way whatever follows.
pub proof fn lemma_control_frame_settled(s: Seq<u8>, more: Seq<u8>)
    requires
        !parse_control_frame(s).ran_out(),
    ensures
        parse_control_frame(s + more) == parse_control_frame(s).followed_by(more),
{
    lemma_word_settled(s, more);
    let frame_len = parse_word(s);
    let len = frame_len.result->Ok_0;
    if MIN_CONTROL_FRAME_LENGTH <= len <= MAX_CONTROL_FRAME_LENGTH {
        lemma_word_settled(frame_len.rest, more);
        let control_type = parse_word(frame_len.rest);
        lemma_control_fields_settled(control_type.rest, (len - 4) as nat, more);
    }
}

/// A handshake that was read, or refused for what it holds, is read or
/// refused in the same way whatever follows.
pub proof fn lemma_start_settled(s: Seq<u8>, more: Seq<u8>)
    requires
        !parse_start(s).ran_out(),
    ensures
        parse_start(s + more) == parse_start(s).followed_by(more),
{
    lemma_word_settled(s, more);
    let sentinel = parse_word(s);
    if sentinel.result == Ok::<u32, DecodeError>(0) {
        lemma_control_frame_settled(sentinel.rest, more);
    }
}

/// A control field that runs out of input lacks at least one byte.
pub proof fn lemma_control_field_lacks_bytes(s: Seq<u8>, limit: nat)
    ensures
        parse_control_field(s, limit).ran_out() ==> 0 < parse_control_field(
            s,
            limit,
        ).result->Err_0.lacked() <= u32::MAX,
{
}

/// The fields of a control frame that run out of input lack at least one
/// byte.
pub proof fn lemma_control_fields_lack_bytes(s: Seq<u8>, remaining: nat)
    ensures
        parse_control_fields(s, remaining).ran_out() ==> 0 < parse_control_fields(
            s,
            remaining,
        ).result->Err_0.lacked() <= u32::MAX,
    decreases remaining,
{
    if remaining > 8 {
        let field = parse_control_field(s, remaining);
        lemma_control_field_lacks_bytes(s, remaining);
        if field.result is Ok {
            lemma_control_field_takes_header(s, remaining);
            lemma_control_fields_lack_bytes(
                field.rest,
                budget_after(remaining, field.result->Ok_0.1),
            );
        }
    }
}

/// A control frame that runs out of input lacks at least one byte.
pub proof fn lemma_control_frame_lacks_bytes(s: Seq<u8>)
    ensures
        parse_control_frame(s).ran_out() ==> 0 < parse_control_frame(s).result->Err_0.lacked()
            <= u32::MAX,
{
    let frame_len = parse_word(s);
    if frame_len.result is Ok {
        let len = frame_len.result->Ok_0;
        let control_type = parse_word(frame_len.rest);
        if control_type.result is Ok && len >= 4 {
            lemma_control_fields_lack_bytes(control_type.rest, (len - 4) as nat);
        }
    }
}

/// A handshake that runs out of input lacks at least one byte.
pub proof fn lemma_start_lacks_bytes(s: Seq<u8>)
    ensures
        parse_start(s).ran_out() ==> 0 < parse_start(s).result->Err_0.lacked() <= u32::MAX,
{
    let sentinel = parse_word(s);
    if sentinel.result is Ok {
        lemma_control_frame_lacks_bytes(sentinel.rest);
    }
}

/// A decoder lacks no byte for its next read just where that read does not
/// run out of input.
pub proof fn lemma_shortfall_is_running_out(v: DecoderView, capacity: nat)
    ensures
        shortfall(v, capacity) > 0 <==> pull(v, capacity).output is Err && pull(
            v,
            capacity,
        ).output->Err_0 is UnexpectedEof,
{
    if !v.stopped {
        lemma_start_lacks_bytes(v.input);
        let started = start(v);
        if started.output is Ok {
            let frame_len = parse_word(started.state.input);
            if frame_len.result is Ok {
                lemma_control_frame_lacks_bytes(frame_len.rest);
            }
        }
    }
}

/// A decoder that lacks no byte for its next read in pull mode has been fed
/// enough: the read gives what it gives and reads what it reads whatever
/// follows in the stream, and what follows is left for the reads after it. So
/// a caller that feeds the decoder what it needs, and no more, takes from its
/// source no byte that the frame in hand does not call for.
pub proof fn lemma_fed_read_is_settled(v: DecoderView, capacity: nat, more: Seq<u8>)
    requires
        shortfall(v, capacity) == 0,
    ensures
        pull(v.at(v.input + more), capacity) == pull(v, capacity).followed_by(more),
{
    lemma_shortfall_is_running_out(v, capacity);
    let w = v.at(v.input + more);
    if v.stopped {
    } else {
        if !v.started {
            assert(!parse_start(v.input).ran_out());
            lemma_start_settled(v.input, more);
        }
        let started = start(v);
        assert(start(w).output == started.output);
        assert(start(w).state == started.state.at(started.state.input + more));
        if started.output is Ok {
            let s = started.state.input;
            assert(!parse_word(s).ran_out());
            lemma_word_settled(s, more);
            let frame_len = parse_word(s);
            let n = frame_len.result->Ok_0;
            if n == 0 {
                assert(!parse_control_frame(frame_len.rest).ran_out());
                lemma_control_frame_settled(frame_len.rest, more);
            } else if n <= capacity {
                assert(!parse_bytes(frame_len.rest, n as nat).ran_out());
                lemma_bytes_settled(frame_len.rest, n as nat, more);
            }
        }
    }
}

/// The same holds of sequence mode, which asks for what a read into a buffer
/// of the largest length would lack.
pub proof fn lemma_fed_step_is_settled(v: DecoderView, more: Seq<u8>)
    requires
        shortfall(v, u32::MAX as nat) == 0,
    ensures
        next_frame(v.at(v.input + more)) == next_frame(v).followed_by(more),
{
    lemma_fed_read_is_settled(v, u32::MAX as nat, more);
}

/// What the read of a control field leaves is no longer than what it was
/// given.
pub proof fn lemma_control_field_rest_is_no_longer(s: Seq<u8>, limit: nat)
    ensures
        parse_control_field(s, limit).rest.len() <= s.len(),
{
}

/// What the read of the fields of a control frame leaves is no longer than
/// what it was given.
pub proof fn lemma_control_fields_rest_is_no_longer(s: Seq<u8>, remaining: nat)
    ensures
        parse_control_fields(s, remaining).rest.len() <= s.len(),
    decreases remaining,
{
    if remaining > 8 {
        let field = parse_control_field(s, remaining);
        lemma_control_field_rest_is_no_longer(s, remaining);
        if field.result is Ok {
            lemma_control_field_takes_header(s, remaining);
            lemma_control_fields_rest_is_no_longer(
                field.rest,
                budget_after(remaining, field.result->Ok_0.1),
            );
        }
    }
}

/// What the read of a control frame leaves is no longer than what it was
/// given.
pub proof fn lemma_control_frame_rest_is_no_longer(s: Seq<u8>)
    ensures
        parse_control_frame(s).rest.len() <= s.len(),
{
    let frame_len = parse_word(s);
    if frame_len.result is Ok {
        let len = frame_len.result->Ok_0;
        let control_type = parse_word(frame_len.rest);
        if control_type.result is Ok && len >= 4 {
            lemma_control_fields_rest_is_no_longer(control_type.rest, (len - 4) as nat);
        }
    }
}

/// A control field that ran out of input and is given just the bytes that it
/// lacked reads all of them, or runs out again further on.
pub proof fn lemma_control_field_fed_exactly(s: Seq<u8>, limit: nat, more: Seq<u8>)
    requires
        parse_control_field(s, limit).ran_out(),
        more.len() == parse_control_field(s, limit).result->Err_0.lacked(),
    ensures
        parse_control_field(s + more, limit).ran_out() || parse_control_field(
            s + more,
            limit,
        ).rest.len() == 0,
{
    let t = s + more;
    let field_type = parse_word(s);
    if field_type.ran_out() {
        assert(t.len() == 4);
        assert(parse_word(t).rest.len() == 0);
    } else {
        lemma_word_settled(s, more);
        let field_len = parse_word(field_type.rest);
        let after = field_type.rest + more;
        if field_len.ran_out() {
            assert(after.len() == 4);
            assert(parse_word(after).rest.len() == 0);
        } else {
            lemma_word_settled(field_type.rest, more);
            let len = field_len.result->Ok_0;
            let value = field_len.rest + more;
            assert(value.len() == len);
            assert(value.skip(len as int).len() == 0);
        }
    }
}

/// The fields of a control frame that ran out of input and are given just
/// the bytes that they lacked read all of them, or run out again further on.
pub proof fn lemma_control_fields_fed_exactly(s: Seq<u8>, remaining: nat, more: Seq<u8>)
    requires
        parse_control_fields(s, remaining).ran_out(),
        more.len() == parse_control_fields(s, remaining).result->Err_0.lacked(),
    ensures
        parse_control_fields(s + more, remaining).ran_out() || parse_control_fields(
            s + more,
            remaining,
        ).rest.len() == 0,
    decreases remaining,
{
    let t = s + more;
    let field = parse_control_field(s, remaining);
    if field.ran_out() {
        lemma_control_field_fed_exactly(s, remaining, more);
        let fed = parse_control_field(t, remaining);
        if fed.result is Ok {
            lemma_control_field_takes_header(t, remaining);
            lemma_control_fields_rest_is_no_longer(
                fed.rest,
                budget_after(remaining, fed.result->Ok_0.1),
            );
        }
    } else {
        lemma_control_field_settled(s, remaining, more);
        lemma_control_field_takes_header(s, remaining);
        lemma_control_fields_fed_exactly(
            field.rest,
            budget_after(remaining, field.result->Ok_0.1),
            more,
        );
    }
}

/// A control frame that ran out of input and is given just the bytes that it
/// lacked reads all of them, or runs out again further on.
pub proof fn lemma_control_frame_fed_exactly(s: Seq<u8>, more: Seq<u8>)
    requires
        parse_control_frame(s).ran_out(),
        more.len() == parse_control_frame(s).result->Err_0.lacked(),
    ensures
        parse_control_frame(s + more).ran_out() || parse_control_frame(s + more).rest.len() == 0,
{
    let t = s + more;
    let frame_len = parse_word(s);
    if frame_len.ran_out() {
        assert(t.len() == 4);
        assert(parse_word(t).rest.len() == 0);
        lemma_control_frame_rest_is_no_longer(t);
        let len = parse_word(t).result->Ok_0;
        if MIN_CONTROL_FRAME_LENGTH <= len <= MAX_CONTROL_FRAME_LENGTH {
            assert(parse_word(parse_word(t).rest).ran_out());
        }
    } else {
        lemma_word_settled(s, more);
        let len = frame_len.result->Ok_0;
        let control_type = parse_word(frame_len.rest);
        let after = frame_len.rest + more;
        if control_type.ran_out() {
            assert(after.len() == 4);
            assert(parse_word(after).rest.len() == 0);
            lemma_control_fields_rest_is_no_longer(parse_word(after).rest, (len - 4) as nat);
        } else {
            lemma_word_settled(frame_len.rest, more);
            lemma_control_fields_fed_exactly(control_type.rest, (len - 4) as nat, more);
        }
    }
}

/// A handshake that ran out of input and is given just the bytes that it
/// lacked reads all of them, or runs out again further on.
pub proof fn lemma_start_fed_exactly(s: Seq<u8>, more: Seq<u8>)
    requires
        parse_start(s).ran_out(),
        more.len() == parse_start(s).result->Err_0.lacked(),
    ensures
        parse_start(s + more).ran_out() || parse_start(s + more).rest.len() == 0,
{
    let t = s + more;
    let sentinel = parse_word(s);
    if sentinel.ran_out() {
        assert(t.len() == 4);
        assert(parse_word(t).rest.len() == 0);
        lemma_control_frame_rest_is_no_longer(parse_word(t).rest);
    } else {
        lemma_word_settled(s, more);
        lemma_control_frame_fed_exactly(sentinel.rest, more);
    }
}

/// A decoder that is fed just the bytes that its next read lacks is given
/// nothing ahead of that read: the read takes every byte that the decoder
/// holds, or it lacks more.
pub proof fn lemma_fed_exactly_reads_all(v: DecoderView, capacity: nat, more: Seq<u8>)
    requires
        shortfall(v, capacity) > 0,
        more.len() == shortfall(v, capacity),
    ensures
        shortfall(v.at(v.input + more), capacity) > 0 || pull(
            v.at(v.input + more),
            capacity,
        ).state.input.len() == 0,
{
    let w = v.at(v.input + more);
    lemma_shortfall_is_running_out(v, capacity);
    lemma_shortfall_is_running_out(w, capacity);
    let handshake = parse_start(v.input);
    if !v.started && handshake.ran_out() {
        lemma_start_fed_exactly(v.input, more);
        if parse_start(w.input).result is Ok {
            assert(parse_word(parse_start(w.input).rest).ran_out());
        }
    } else {
        if !v.started {
            lemma_start_settled(v.input, more);
        }
        let started = start(v);
        assert(start(w).state == started.state.at(started.state.input + more));
        let s = started.state.input;
        let frame_len = parse_word(s);
        if frame_len.ran_out() {
            let t = s + more;
            assert(t.len() == 4);
            assert(parse_word(t).rest.len() == 0);
            let n = parse_word(t).result->Ok_0;
            if n == 0 {
                lemma_control_frame_rest_is_no_longer(parse_word(t).rest);
            }
        } else {
            lemma_word_settled(s, more);
            let n = frame_len.result->Ok_0;
            let after = frame_len.rest + more;
            if n == 0 {
                lemma_control_frame_fed_exactly(frame_len.rest, more);
            } else {
                assert(after.len() == n);
                assert(after.skip(n as int).len() == 0);
            }
        }
    }
}

} // verus!
