use bytes::Bytes;
use simple_redis::frame::{check, encode, parse, write_decimal, Frame, FrameError};

fn decode(bytes: &[u8]) -> Result<(Frame, usize), FrameError> {
    let n = check(bytes)?;
    let frame = parse(bytes)?;
    Ok((frame, n))
}

fn round_trip(frame: Frame) {
    let bytes = encode(&frame).unwrap();
    let (back, n) = decode(&bytes).unwrap();
    assert_eq!(back, frame);
    assert_eq!(n, bytes.len());
}

#[test]
fn round_trip_each_variant() {
    round_trip(Frame::Simple("OK".to_string()));
    round_trip(Frame::Simple(String::new()));
    round_trip(Frame::Error("ERR boom".to_string()));
    round_trip(Frame::Integer(0));
    round_trip(Frame::Integer(u64::MAX));
    round_trip(Frame::Null);
    round_trip(Frame::Bulk(Bytes::new()));
    round_trip(Frame::Bulk(Bytes::from(b"a\r\nb".to_vec())));
    round_trip(Frame::Simple("héllo wörld".to_string()));
}

#[test]
fn encodes_exact_bytes() {
    assert_eq!(encode(&Frame::Simple("OK".to_string())).unwrap(), b"+OK\r\n".to_vec());
    assert_eq!(encode(&Frame::Error("bad".to_string())).unwrap(), b"-bad\r\n".to_vec());
    assert_eq!(encode(&Frame::Integer(1234)).unwrap(), b":1234\r\n".to_vec());
    assert_eq!(encode(&Frame::Null).unwrap(), b"$-1\r\n".to_vec());
    assert_eq!(encode(&Frame::Bulk(Bytes::from(b"hello".to_vec()))).unwrap(), b"$5\r\nhello\r\n".to_vec());
}

#[test]
fn write_decimal_appends_digits_and_crlf() {
    let mut out = b"x".to_vec();
    write_decimal(&mut out, 907);
    assert_eq!(out, b"x907\r\n".to_vec());
    let mut zero = Vec::new();
    write_decimal(&mut zero, 0);
    assert_eq!(zero, b"0\r\n".to_vec());
}

#[test]
fn encode_refuses_array_and_line_breaks() {
    assert_eq!(encode(&Frame::Array(vec![Frame::Integer(1)])), Err(FrameError::Unsupported));
    assert_eq!(encode(&Frame::Simple("a\nb".to_string())), Err(FrameError::InvalidFormat));
    assert_eq!(encode(&Frame::Error("a\rb".to_string())), Err(FrameError::InvalidFormat));
}

#[test]
fn check_reports_each_error() {
    assert_eq!(check(b""), Err(FrameError::Incomplete));
    assert_eq!(check(b"+OK"), Err(FrameError::Incomplete));
    assert_eq!(check(b"$5\r\nhel"), Err(FrameError::Incomplete));
    assert_eq!(check(b":12a\r\n"), Err(FrameError::InvalidFormat));
    assert_eq!(check(b":\r\n"), Err(FrameError::InvalidFormat));
    assert_eq!(check(b":18446744073709551616\r\n"), Err(FrameError::InvalidFormat));
    assert_eq!(check(b"$-2\r\n"), Err(FrameError::InvalidFormat));
    assert_eq!(check(b"$3\r\nabcXY"), Err(FrameError::InvalidFormat));
    assert_eq!(check(b"*1\r\n$1\r\na\r\n"), Err(FrameError::Unsupported));
    assert_eq!(check(b"?what\r\n"), Err(FrameError::InvalidType));
    assert!(FrameError::Unsupported.is_protocol());
    assert!(!FrameError::Incomplete.is_protocol());
    assert!(!FrameError::ConnectionReset.is_protocol());
}

#[test]
fn check_measures_first_frame_only() {
    assert_eq!(check(b"+OK\r\n:1\r\n"), Ok(5));
    assert_eq!(check(b"$3\r\nabc\r\n+x"), Ok(9));
    assert_eq!(check(b"$-1\r\n"), Ok(5));
}

#[test]
fn parse_rejects_invalid_utf8() {
    let bytes = b"+\xff\xfe\r\n";
    assert_eq!(check(bytes), Ok(5));
    assert_eq!(parse(bytes), Err(FrameError::InvalidFormat));
    assert_eq!(parse(b"-caf\xc3\xa9\r\n"), Ok(Frame::Error("café".to_string())));
}

#[test]
fn length_header_with_non_digit_is_protocol_error() {
    let r = check(b"$1x\r\nabc\r\n");
    assert_eq!(r, Err(FrameError::InvalidFormat));
    assert!(r.unwrap_err().is_protocol());
}
