use bytes::Bytes;
use simple_redis::frame::{encode, Frame, FrameError};
use simple_redis::reader::{FrameReader, Progress, INITIAL_CAPACITY};

/// Feeds `bytes` to a reader in chunks of at most `chunk` bytes and collects
/// what comes out until the stream ends.
fn feed(bytes: &[u8], chunk: usize) -> (Vec<Frame>, Result<(), FrameError>) {
    let mut reader = FrameReader::new();
    let mut frames = Vec::new();
    let mut at = 0;
    loop {
        match reader.parse_frame() {
            Ok(Some(frame)) => {
                frames.push(frame);
                continue;
            }
            Ok(None) => {}
            Err(e) => return (frames, Err(e)),
        }
        let n = chunk.min(reader.spare()).min(bytes.len() - at);
        let data = &bytes[at..at + n];
        at += n;
        match reader.on_read(data) {
            Ok(Progress::Continue) => {}
            Ok(Progress::EndOfStream) => return (frames, Ok(())),
            Err(e) => return (frames, Err(e)),
        }
    }
}

#[test]
fn byte_at_a_time_equals_all_at_once() {
    let frames = vec![
        Frame::Simple("OK".to_string()),
        Frame::Integer(42),
        Frame::Null,
        Frame::Bulk(Bytes::from(b"some\r\nbytes".to_vec())),
        Frame::Error("ERR x".to_string()),
    ];
    let mut bytes = Vec::new();
    for f in &frames {
        bytes.extend_from_slice(&encode(f).unwrap());
    }
    let (one, end_one) = feed(&bytes, 1);
    let (all, end_all) = feed(&bytes, bytes.len());
    assert_eq!(one, frames);
    assert_eq!(all, frames);
    assert_eq!(end_one, Ok(()));
    assert_eq!(end_all, Ok(()));
}

#[test]
fn bulk_larger_than_initial_capacity() {
    let payload: Vec<u8> = (0..3 * INITIAL_CAPACITY + 17).map(|i| (i % 251) as u8).collect();
    let bytes = encode(&Frame::Bulk(Bytes::from(payload.clone()))).unwrap();
    let (frames, end) = feed(&bytes, usize::MAX);
    assert_eq!(frames, vec![Frame::Bulk(Bytes::from(payload))]);
    assert_eq!(end, Ok(()));
}

#[test]
fn buffer_doubles_when_full() {
    let mut reader = FrameReader::new();
    assert_eq!(reader.spare(), INITIAL_CAPACITY);
    let mut header = b"$9000\r\n".to_vec();
    header.resize(INITIAL_CAPACITY, b'z');
    assert_eq!(reader.on_read(&header), Ok(Progress::Continue));
    assert_eq!(reader.spare(), 0);
    assert_eq!(reader.parse_frame(), Ok(None));
    assert_eq!(reader.spare(), INITIAL_CAPACITY);
}

#[test]
fn close_before_any_byte_is_end_of_stream() {
    let mut reader = FrameReader::new();
    assert_eq!(reader.parse_frame(), Ok(None));
    assert_eq!(reader.on_read(&[]), Ok(Progress::EndOfStream));
}

#[test]
fn close_after_bulk_header_is_connection_reset() {
    let (frames, end) = feed(b"$5\r\n", 64);
    assert!(frames.is_empty());
    assert_eq!(end, Err(FrameError::ConnectionReset));
}

#[test]
fn malformed_length_stops_the_reader() {
    let (frames, end) = feed(b"+OK\r\n$1x\r\nabc\r\n", 3);
    assert_eq!(frames, vec![Frame::Simple("OK".to_string())]);
    assert_eq!(end, Err(FrameError::InvalidFormat));
}

#[test]
fn unknown_type_byte_is_refused() {
    let (_, end) = feed(b"!\r\n", 8);
    assert_eq!(end, Err(FrameError::InvalidType));
}
