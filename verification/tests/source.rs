use framestream::source::ByteSource;
use framestream::DecodeError;

#[test]
fn source_counts_what_is_left() {
    let mut source = ByteSource::new(vec![1, 2, 3, 4, 5, 6]);
    assert_eq!(source.remaining(), 6);
    assert_eq!(source.peek(2), &[1u8, 2][..]);
    assert_eq!(source.remaining(), 6);
    source.advance(2);
    assert_eq!(source.remaining(), 4);
    assert_eq!(source.peek(4), &[3u8, 4, 5, 6][..]);
    source.drain();
    assert_eq!(source.remaining(), 0);
    assert_eq!(source.peek(0), &[0u8; 0][..]);
}

#[test]
fn source_reads_words_most_significant_byte_first() {
    let mut source = ByteSource::new(vec![0, 0, 0, 29, 0xDE, 0xAD, 0xBE, 0xEF, 0xFF, 0xFF, 0xFF, 0xFF, 9]);
    assert_eq!(source.read_u32(), Ok(29));
    assert_eq!(source.read_u32(), Ok(0xDEAD_BEEF));
    assert_eq!(source.read_u32(), Ok(u32::MAX));
    assert_eq!(source.remaining(), 1);
    assert_eq!(
        source.read_u32(),
        Err(DecodeError::UnexpectedEof { missing: 3 })
    );
    assert_eq!(source.remaining(), 0);
}

#[test]
fn source_reads_into_a_vector() {
    let mut source = ByteSource::new(vec![1, 2, 3, 4, 5]);
    assert_eq!(source.read_vec(0), Ok(vec![]));
    assert_eq!(source.read_vec(2), Ok(vec![1, 2]));
    assert_eq!(
        source.read_vec(4),
        Err(DecodeError::UnexpectedEof { missing: 1 })
    );
    assert_eq!(source.remaining(), 0);
}

#[test]
fn source_reads_into_a_buffer() {
    let mut source = ByteSource::new(vec![1, 2, 3, 4, 5]);
    let mut buf = [9u8; 4];
    assert_eq!(source.read_exact(3, &mut buf[..]), Ok(()));
    assert_eq!(buf, [1, 2, 3, 9]);
    assert_eq!(
        source.read_exact(3, &mut buf[..]),
        Err(DecodeError::UnexpectedEof { missing: 1 })
    );
    assert_eq!(buf, [1, 2, 3, 9]);
    assert_eq!(source.remaining(), 0);
}

#[test]
fn source_clone_keeps_its_place() {
    let mut source = ByteSource::new(vec![1, 2, 3, 4, 5]);
    source.advance(3);
    let mut copy = source.clone();
    assert_eq!(copy.read_vec(2), Ok(vec![4, 5]));
    assert_eq!(source.remaining(), 2);
}

#[test]
fn source_takes_more_bytes_behind_what_is_unread() {
    let mut source = ByteSource::new(vec![1, 2, 3]);
    source.advance(2);
    source.feed(&[4, 5]);
    assert_eq!(source.remaining(), 3);
    assert_eq!(source.peek(3), &[3u8, 4, 5][..]);
    source.drain();
    source.feed(&[6]);
    assert_eq!(source.read_vec(1), Ok(vec![6]));
}
