use miniredis::frame::{Error, Frame, ParseError};

fn decode_all(bytes: &[u8]) -> (Frame, usize) {
    let mut pos: usize = 0;
    let frame = Frame::decode(bytes, &mut pos).unwrap();
    (frame, pos)
}

#[test]
#[should_panic(expected = "protocol error")]
fn test_check() {
    let buf = b"123\r\n";
    let mut pos: usize = 0;
    Frame::check(&buf[..], &mut pos).unwrap()
}

#[test]
fn test_decode() {
    let buf = b"$5\r\nHello\r\n";
    let mut pos: usize = 0;
    assert_eq!(Frame::check(&buf[..], &mut pos).unwrap(), ());
    assert_eq!(pos, buf.len());
    let (frame, consumed) = decode_all(&buf[..]);
    assert_eq!(frame, Frame::Bulk(b"Hello".to_vec()));
    assert_eq!(consumed, buf.len());
}

#[test]
fn test_encode() {
    let frame = Frame::Bulk(b"Hello".to_vec());

    let buf = &mut Vec::new();
    let n = frame.encode(buf);
    assert_eq!(b"$5\r\nHello\r\n".to_vec(), *buf);
    assert_eq!(n, 11);

    let frame = Frame::Array(vec![
        Frame::Bulk(b"set".to_vec()),
        Frame::Bulk(b"Hello".to_vec()),
        Frame::Bulk(b"world".to_vec()),
    ]);

    let mut buf = Vec::with_capacity(100);
    frame.encode(&mut buf);
    assert_eq!(
        b"*3\r\n$3\r\nset\r\n$5\r\nHello\r\n$5\r\nworld\r\n".to_vec(),
        buf
    );
}

#[test]
fn encode_simple_error_integer_null() {
    let mut buf = Vec::new();
    assert_eq!(Frame::Simple("OK".to_string()).encode(&mut buf), 5);
    assert_eq!(buf, b"+OK\r\n".to_vec());

    let mut buf = Vec::new();
    Frame::Error("oops".to_string()).encode(&mut buf);
    assert_eq!(buf, b"-oops\r\n".to_vec());

    let mut buf = Vec::new();
    Frame::Integer(10570).encode(&mut buf);
    assert_eq!(buf, b":10570\r\n".to_vec());

    let mut buf = Vec::new();
    Frame::Integer(0).encode(&mut buf);
    assert_eq!(buf, b":0\r\n".to_vec());

    let mut buf = Vec::new();
    Frame::Null.encode(&mut buf);
    assert_eq!(buf, b"$-1\r\n".to_vec());
}

#[test]
fn round_trip_every_variant() {
    let frames = vec![
        Frame::Simple("status".to_string()),
        Frame::Error("err message".to_string()),
        Frame::Integer(u64::MAX),
        Frame::Bulk(vec![0, 13, 10, 255, 1]),
        Frame::Null,
        Frame::Array(vec![
            Frame::Integer(7),
            Frame::Array(vec![Frame::Null, Frame::Simple("x".to_string())]),
            Frame::Bulk(b"payload".to_vec()),
        ]),
        Frame::Array(vec![]),
    ];
    for frame in frames {
        let mut bytes = Vec::new();
        let n = frame.encode(&mut bytes);
        assert_eq!(n, bytes.len());
        let mut pos: usize = 0;
        assert!(Frame::check(&bytes, &mut pos).is_ok());
        assert_eq!(pos, bytes.len());
        let (back, consumed) = decode_all(&bytes);
        assert_eq!(back, frame);
        assert_eq!(consumed, bytes.len());
    }
}

#[test]
fn byte_at_a_time_is_incomplete_until_the_end() {
    let frame = Frame::Array(vec![
        Frame::Bulk(b"set".to_vec()),
        Frame::Bulk(b"name".to_vec()),
        Frame::Bulk(b"simon".to_vec()),
    ]);
    let mut bytes = Vec::new();
    frame.encode(&mut bytes);
    for cut in 0..bytes.len() {
        let mut pos: usize = 0;
        match Frame::check(&bytes[..cut], &mut pos) {
            Err(Error::Incomplete) => {}
            other => panic!("prefix of {} bytes was not Incomplete: {:?}", cut, other),
        }
        let mut pos: usize = 0;
        match Frame::decode(&bytes[..cut], &mut pos) {
            Err(Error::Incomplete) => {}
            other => panic!("prefix of {} bytes was not Incomplete: {:?}", cut, other),
        }
    }
    let mut pos: usize = 0;
    assert!(Frame::check(&bytes, &mut pos).is_ok());
}

#[test]
fn trailing_bytes_are_left_for_the_next_frame() {
    let mut bytes = Vec::new();
    Frame::Simple("one".to_string()).encode(&mut bytes);
    let split = bytes.len();
    Frame::Integer(2).encode(&mut bytes);
    let (first, consumed) = decode_all(&bytes);
    assert_eq!(first, Frame::Simple("one".to_string()));
    assert_eq!(consumed, split);
    let mut pos = consumed;
    let second = Frame::decode(&bytes, &mut pos).unwrap();
    assert_eq!(second, Frame::Integer(2));
    assert_eq!(pos, bytes.len());
}

#[test]
fn protocol_violations_are_not_incomplete() {
    // unknown leading byte
    let mut pos: usize = 0;
    assert!(matches!(
        Frame::decode(b"?3\r\n", &mut pos),
        Err(Error::Other(_))
    ));
    // malformed decimal in a bulk length
    let mut pos = 0;
    assert!(matches!(
        Frame::decode(b"$5x\r\nHello\r\n", &mut pos),
        Err(Error::Other(_))
    ));
    // malformed null literal
    let mut pos = 0;
    assert!(matches!(
        Frame::decode(b"$-2\r\n", &mut pos),
        Err(Error::Other(_))
    ));
    // invalid UTF-8 in a text frame
    let mut pos = 0;
    assert!(matches!(
        Frame::decode(b"+ab\xffcd\r\n", &mut pos),
        Err(Error::Other(_))
    ));
    let mut pos = 0;
    assert!(matches!(
        Frame::check(b"+ab\xffcd\r\n", &mut pos),
        Err(Error::Other(_))
    ));
    // an out-of-range integer is malformed, not pending
    let mut pos = 0;
    assert!(matches!(
        Frame::decode(b":99999999999999999999\r\n", &mut pos),
        Err(Error::Other(_))
    ));
}

#[test]
fn decode_accepts_text_and_integer_lines() {
    let (f, _) = decode_all(b"+hello world\r\n");
    assert_eq!(f, Frame::Simple("hello world".to_string()));
    let (f, _) = decode_all(b"-some error\r\n");
    assert_eq!(f, Frame::Error("some error".to_string()));
    let (f, _) = decode_all(b":007\r\n");
    assert_eq!(f, Frame::Integer(7));
    let (f, _) = decode_all(b"*-1\r\n");
    assert_eq!(f, Frame::Null);
    let (f, _) = decode_all(b"$0\r\n\r\n");
    assert_eq!(f, Frame::Bulk(Vec::new()));
}

#[test]
fn cursor_walks_an_array_frame() {
    let mut frame = Frame::new_array_frame();
    frame.push_bulk(b"get".to_vec());
    frame.push_bulk(b"name".to_vec());
    frame.push_int(42);
    let mut it = frame.into_iterator();
    assert_eq!(it.next_string().unwrap(), "get".to_string());
    assert_eq!(it.next_bytes().unwrap(), b"name".to_vec());
    assert_eq!(it.next_int().unwrap(), 42);
    assert_eq!(it.next_string().unwrap_err(), ParseError::Exhausted);
}

#[test]
fn cursor_rejects_wrong_kinds_and_bad_text() {
    let mut frame = Frame::new_array_frame();
    frame.push_int(1);
    frame.push_bulk(vec![0xff, 0xfe]);
    frame.push_bulk(b"ok".to_vec());
    let mut it = frame.into_iterator();
    // an integer is not text
    assert_eq!(it.next_string().unwrap_err(), ParseError::WrongKind);
    // invalid UTF-8 is not text either
    assert_eq!(it.next_string().unwrap_err(), ParseError::BadText);
    // a bulk frame is not an integer
    assert_eq!(it.next_int().unwrap_err(), ParseError::WrongKind);
    assert_eq!(it.next_bytes().unwrap_err(), ParseError::Exhausted);
}
