use framestream::{Decoder, Frame};

fn word(n: u32) -> Vec<u8> {
    n.to_be_bytes().to_vec()
}

fn control_frame(control_type: u32, content_types: &[&str]) -> Vec<u8> {
    let mut body = word(control_type);
    for content_type in content_types {
        body.extend(word(1));
        body.extend(word(content_type.len() as u32));
        body.extend_from_slice(content_type.as_bytes());
    }
    let mut bytes = word(0);
    bytes.extend(word(body.len() as u32));
    bytes.extend(body);
    bytes
}

fn stream(content_types: &[&str], payloads: &[&[u8]]) -> Vec<u8> {
    let mut bytes = control_frame(2, content_types);
    for payload in payloads {
        bytes.extend(word(payload.len() as u32));
        bytes.extend_from_slice(payload);
    }
    bytes.extend(control_frame(3, &[]));
    bytes
}

fn session(content_types: &[&str], payload: &[u8]) -> Vec<u8> {
    stream(content_types, &[payload])
}

fn pulls_back(content_types: &[&str], payload: &[u8]) {
    let mut decoder = Decoder::new(session(content_types, payload));
    let mut buf = vec![0xEEu8; 600];
    assert_eq!(decoder.read(&mut buf[..]), Ok(payload.len()));
    assert_eq!(&buf[..payload.len()], payload);
    assert!(buf[payload.len()..].iter().all(|b| *b == 0xEE));
    assert_eq!(decoder.read(&mut buf[..]), Ok(0));
    assert_eq!(decoder.read(&mut buf[..]), Ok(0));
    assert!(buf[payload.len()..].iter().all(|b| *b == 0xEE));
}

fn yields_back(content_types: &[&str], payload: &[u8]) {
    let mut decoder = Decoder::new(session(content_types, payload));
    assert_eq!(decoder.next(), Some(Frame::new(payload.to_vec())));
    assert_eq!(decoder.next(), None);
    assert_eq!(decoder.next(), None);
}

#[test]
fn session_builder_gives_the_known_bytes() {
    assert_eq!(
        session(&["test-content-type"], b"test-content"),
        vec![
            0, 0, 0, 0, 0, 0, 0, 29, 0, 0, 0, 2, 0, 0, 0, 1, 0, 0, 0, 17, 116, 101, 115, 116, 45,
            99, 111, 110, 116, 101, 110, 116, 45, 116, 121, 112, 101, 0, 0, 0, 12, 116, 101, 115,
            116, 45, 99, 111, 110, 116, 101, 110, 116, 0, 0, 0, 0, 0, 0, 0, 4, 0, 0, 0, 3,
        ]
    );
}

#[test]
fn round_trip_of_one_byte() {
    pulls_back(&[], &[0x5A]);
    yields_back(&[], &[0x5A]);
}

#[test]
fn round_trip_of_512_bytes() {
    let payload: Vec<u8> = (0..512u32).map(|i| (i % 251) as u8).collect();
    pulls_back(&[], &payload);
    yields_back(&[], &payload);
}

#[test]
fn round_trip_with_content_types() {
    let payload: Vec<u8> = (0..300u32).map(|i| (i * 7 % 256) as u8).collect();
    pulls_back(&["application/json"], &payload);
    yields_back(&["application/json"], &payload);
    pulls_back(&["a", "", "protobuf:dnstap.Dnstap"], &payload);
    yields_back(&["a", "", "protobuf:dnstap.Dnstap"], &payload);
}

#[test]
fn round_trip_of_a_payload_that_looks_like_a_control_frame() {
    let payload = [0u8, 0, 0, 0, 0, 0, 0, 4, 0, 0, 0, 3];
    pulls_back(&["x"], &payload);
    yields_back(&["x"], &payload);
}

#[test]
fn round_trip_of_every_short_length() {
    for len in 1..=64usize {
        let payload: Vec<u8> = (0..len).map(|i| (i * 31 % 256) as u8).collect();
        pulls_back(&["t"], &payload);
        yields_back(&["t"], &payload);
    }
}

#[test]
fn frames_come_in_the_order_in_which_they_were_written() {
    let payloads: [&[u8]; 4] = [b"first", b"2", b"the third one", &[0, 0, 0, 0]];
    let mut decoder = Decoder::new(stream(&["text/plain"], &payloads));
    for payload in payloads {
        assert_eq!(decoder.next(), Some(Frame::new(payload.to_vec())));
    }
    for _ in 0..3 {
        assert_eq!(decoder.next(), None);
    }
}

#[test]
fn payloads_come_in_the_order_in_which_they_were_written() {
    let payloads: [&[u8]; 4] = [b"first", b"2", b"the third one", &[0, 0, 0, 0]];
    let mut decoder = Decoder::new(stream(&["text/plain"], &payloads));
    let mut buf = [0u8; 13];
    for payload in payloads {
        assert_eq!(decoder.read(&mut buf[..]), Ok(payload.len()));
        assert_eq!(&buf[..payload.len()], payload);
    }
    for _ in 0..4 {
        assert_eq!(decoder.read(&mut buf[..]), Ok(0));
    }
}

#[test]
fn stream_without_data_frames_ends_at_once() {
    let mut decoder = Decoder::new(stream(&[], &[]));
    assert_eq!(decoder.next(), None);
    assert_eq!(decoder.next(), None);
    let mut decoder = Decoder::new(stream(&[], &[]));
    let mut buf = [3u8; 4];
    assert_eq!(decoder.read(&mut buf[..]), Ok(0));
    assert_eq!(buf, [3u8; 4]);
}

#[test]
fn frames_after_a_stop_frame_are_not_read() {
    let mut bytes = stream(&[], &[b"before"]);
    bytes.extend(word(5));
    bytes.extend_from_slice(b"after");
    let mut decoder = Decoder::new(bytes.clone());
    assert_eq!(decoder.next(), Some(Frame::new(b"before".to_vec())));
    for _ in 0..3 {
        assert_eq!(decoder.next(), None);
    }
    let mut decoder = Decoder::new(bytes);
    let mut buf = [0u8; 8];
    assert_eq!(decoder.read(&mut buf[..]), Ok(6));
    for _ in 0..3 {
        assert_eq!(decoder.read(&mut buf[..]), Ok(0));
        assert_eq!(&buf[..6], b"before");
    }
}

#[test]
fn start_frame_whose_last_field_is_empty_is_not_read_whole() {
    let mut decoder = Decoder::new(stream(&["a", ""], &[b"payload"]));
    assert_eq!(decoder.next(), Some(Frame::new(vec![0])));
}
