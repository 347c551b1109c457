use bytes::Bytes;
use resp_codec::conn::Connection;
use resp_codec::cursor::Cursor;
use resp_codec::frame::{get_decimal, get_line, get_u8, peek_u8, skip, Frame, FrameError, Malformed};

fn encode(frame: Frame) -> Vec<u8> {
    let mut conn = Connection::new();
    conn.write_frame(frame);
    conn.take_unsent()
}

fn decode(bytes: &[u8]) -> Result<(Frame, usize), FrameError> {
    let mut cur = Cursor::new(bytes);
    let frame = Frame::parse(&mut cur)?;
    Ok((frame, cur.position()))
}

fn probe(bytes: &[u8]) -> Result<usize, FrameError> {
    let mut cur = Cursor::new(bytes);
    Frame::check(&mut cur)?;
    Ok(cur.position())
}

fn same(a: &Frame, b: &Frame) -> bool {
    match (a, b) {
        (Frame::Simple(x), Frame::Simple(y)) => x == y,
        (Frame::Error(x), Frame::Error(y)) => x == y,
        (Frame::Integer(x), Frame::Integer(y)) => x == y,
        (Frame::Bulk(x), Frame::Bulk(y)) => x == y,
        (Frame::Null, Frame::Null) => true,
        (Frame::Array(x), Frame::Array(y)) => {
            x.len() == y.len() && x.iter().zip(y.iter()).all(|(p, q)| same(p, q))
        }
        _ => false,
    }
}

fn bulk(text: &'static str) -> Frame {
    Frame::Bulk(Bytes::from(text))
}

fn samples() -> Vec<Frame> {
    vec![
        Frame::Simple("OK".to_string()),
        Frame::Simple(String::new()),
        Frame::Simple("caf\u{e9} \u{1f600}".to_string()),
        Frame::Error("ERR unknown command".to_string()),
        Frame::Integer(0),
        Frame::Integer(7),
        Frame::Integer(1234567890),
        Frame::Integer(u64::MAX),
        bulk("pong"),
        bulk(""),
        Frame::Bulk(Bytes::from(vec![0u8, 255, 13, 10, 36, 45])),
        Frame::Null,
        Frame::Array(vec![]),
        Frame::Array(vec![bulk("GET"), bulk("foo")]),
        Frame::Array(vec![
            Frame::Simple("a".to_string()),
            Frame::Error("b".to_string()),
            Frame::Integer(12),
            Frame::Null,
            bulk("c\r\nd"),
        ]),
    ]
}

#[test]
fn encodes_bulk_pong() {
    assert_eq!(encode(bulk("pong")), b"$4\r\npong\r\n".to_vec());
}

#[test]
fn encodes_null() {
    assert_eq!(encode(Frame::Null), b"$-1\r\n".to_vec());
}

#[test]
fn decodes_bulk_foo() {
    let (frame, used) = decode(b"$3\r\nfoo\r\n").unwrap();
    assert!(same(&frame, &bulk("foo")));
    assert_eq!(used, 9);
}

#[test]
fn decodes_get_command_array() {
    let (frame, used) = decode(b"*2\r\n$3\r\nGET\r\n$3\r\nfoo\r\n").unwrap();
    assert_eq!(used, 22);
    assert!(same(&frame, &Frame::Array(vec![bulk("GET"), bulk("foo")])));
}

#[test]
fn encodes_each_kind() {
    assert_eq!(encode(Frame::Simple("OK".to_string())), b"+OK\r\n".to_vec());
    assert_eq!(encode(Frame::Error("ERR no".to_string())), b"-ERR no\r\n".to_vec());
    assert_eq!(encode(Frame::Integer(0)), b":0\r\n".to_vec());
    assert_eq!(encode(Frame::Integer(1234567890)), b":1234567890\r\n".to_vec());
    assert_eq!(encode(Frame::Integer(u64::MAX)), b":18446744073709551615\r\n".to_vec());
    assert_eq!(encode(bulk("")), b"$0\r\n\r\n".to_vec());
    assert_eq!(encode(Frame::Array(vec![])), b"*0\r\n".to_vec());
    assert_eq!(
        encode(Frame::Array(vec![bulk("GET"), bulk("foo")])),
        b"*2\r\n$3\r\nGET\r\n$3\r\nfoo\r\n".to_vec()
    );
    assert_eq!(
        encode(Frame::Array(vec![Frame::Integer(10), Frame::Null, Frame::Simple("x".to_string())])),
        b"*3\r\n:10\r\n$-1\r\n+x\r\n".to_vec()
    );
}

#[test]
fn a_bulk_of_twelve_bytes_has_a_two_digit_length() {
    assert_eq!(encode(bulk("hello, world")), b"$12\r\nhello, world\r\n".to_vec());
}

#[test]
fn writes_queue_up_until_taken() {
    let mut conn = Connection::new();
    conn.write_frame(Frame::Integer(1));
    conn.write_value(&Frame::Null);
    conn.write_decimal(42);
    assert_eq!(conn.take_unsent(), b":1\r\n$-1\r\n42\r\n".to_vec());
    assert_eq!(conn.take_unsent(), Vec::<u8>::new());
}

#[test]
fn decodes_each_kind() {
    assert!(same(&decode(b"+OK\r\n").unwrap().0, &Frame::Simple("OK".to_string())));
    assert!(same(&decode(b"-ERR no\r\n").unwrap().0, &Frame::Error("ERR no".to_string())));
    assert!(same(&decode(b":42\r\n").unwrap().0, &Frame::Integer(42)));
    assert!(same(&decode(b"$-1\r\n").unwrap().0, &Frame::Null));
    assert!(same(&decode(b"*0\r\n").unwrap().0, &Frame::Array(vec![])));
    assert!(same(&decode(b"$0\r\n\r\n").unwrap().0, &bulk("")));
}

#[test]
fn decodes_nested_arrays() {
    let (frame, used) = decode(b"*2\r\n*1\r\n:1\r\n*0\r\n").unwrap();
    assert_eq!(used, 16);
    let want = Frame::Array(vec![Frame::Array(vec![Frame::Integer(1)]), Frame::Array(vec![])]);
    assert!(same(&frame, &want));
    assert_eq!(probe(b"*2\r\n*1\r\n:1\r\n*0\r\n"), Ok(16));
}

#[test]
fn round_trip_of_every_sample() {
    for frame in samples() {
        let bytes = encode(frame.clone());
        let (back, used) = decode(&bytes).unwrap();
        assert!(same(&back, &frame), "{:?} came back as {:?}", frame, back);
        assert_eq!(used, bytes.len());
        assert_eq!(probe(&bytes), Ok(bytes.len()));
    }
}

#[test]
fn a_text_with_a_line_end_does_not_round_trip() {
    let bytes = encode(Frame::Simple("a\r\nb".to_string()));
    let (back, used) = decode(&bytes).unwrap();
    assert!(same(&back, &Frame::Simple("a".to_string())));
    assert_eq!(used, 4);
}

#[test]
fn clone_keeps_the_frame() {
    for frame in samples() {
        assert!(same(&frame.clone(), &frame));
    }
}

#[test]
fn decoding_stops_behind_the_frame() {
    let (frame, used) = decode(b"+OK\r\n:1\r\n").unwrap();
    assert!(same(&frame, &Frame::Simple("OK".to_string())));
    assert_eq!(used, 5);
}

#[test]
fn check_reports_the_frame_length() {
    assert_eq!(probe(b"+OK\r\nrest"), Ok(5));
    assert_eq!(probe(b"-ERR\r\n"), Ok(6));
    assert_eq!(probe(b":1234\r\n"), Ok(7));
    assert_eq!(probe(b"$-1\r\n"), Ok(5));
    assert_eq!(probe(b"$3\r\nfoo\r\n"), Ok(9));
    assert_eq!(probe(b"*2\r\n:1\r\n+a\r\n"), Ok(12));
}

#[test]
fn check_and_parse_agree_on_what_decodes() {
    let inputs: Vec<&[u8]> = vec![
        b"+OK\r\n",
        b":007\r\n",
        b"$3\r\nfoo\r\nmore",
        b"$3\r\nfooXY",
        b"*2\r\n$-1\r\n:5\r\n",
        b"*1\r\n*1\r\n+x\r\n",
        b"",
        b"+OK",
        b"*2\r\n:1\r\n",
        b":x\r\n",
        b"!\r\n",
    ];
    for bytes in inputs {
        match decode(bytes) {
            Ok((_, used)) => assert_eq!(probe(bytes), Ok(used)),
            Err(e) => assert_eq!(probe(bytes), Err(e)),
        }
    }
}

#[test]
fn check_passes_over_what_parse_refuses() {
    assert_eq!(probe(b"+\xff\r\n"), Ok(4));
    assert!(matches!(decode(b"+\xff\r\n"), Err(FrameError::Other(Malformed::Text))));
    assert_eq!(probe(b"-\xc3\r\n"), Ok(4));
    assert!(matches!(decode(b"-\xc3\r\n"), Err(FrameError::Other(Malformed::Text))));
    assert_eq!(probe(b"$-2\r\n"), Ok(5));
    assert!(matches!(decode(b"$-2\r\n"), Err(FrameError::Other(Malformed::Null))));
    assert_eq!(probe(b"$-123\r\n"), Ok(5));
    assert!(matches!(decode(b"$-123\r\n"), Err(FrameError::Other(Malformed::Null))));
    assert_eq!(probe(b"$-abc"), Ok(5));
    assert!(matches!(decode(b"$-abc"), Err(FrameError::Incomplete)));
}

#[test]
fn too_few_bytes_are_incomplete() {
    let inputs: Vec<&[u8]> = vec![
        b"",
        b"+",
        b"+OK",
        b"+OK\r",
        b":12",
        b"$",
        b"$3",
        b"$3\r\n",
        b"$3\r\nfoo",
        b"$3\r\nfoo\r",
        b"$-",
        b"$-1\r",
        b"*",
        b"*2\r\n",
        b"*2\r\n:1\r\n",
        b"*2\r\n:1\r\n+a",
    ];
    for bytes in inputs {
        assert_eq!(probe(bytes), Err(FrameError::Incomplete), "check of {:?}", bytes);
        assert!(matches!(decode(bytes), Err(FrameError::Incomplete)), "parse of {:?}", bytes);
    }
}

#[test]
fn unknown_prefix_is_malformed() {
    assert_eq!(probe(b"?what\r\n"), Err(FrameError::Other(Malformed::Prefix(b'?'))));
    assert!(matches!(decode(b"?what\r\n"), Err(FrameError::Other(Malformed::Prefix(b'?')))));
    assert_eq!(probe(b"\r\n"), Err(FrameError::Other(Malformed::Prefix(b'\r'))));
    assert_eq!(probe(b"*1\r\nx"), Err(FrameError::Other(Malformed::Prefix(b'x'))));
}

#[test]
fn a_decimal_is_digits_only() {
    let bad: Vec<&[u8]> = vec![
        b":\r\n",
        b":x\r\n",
        b":12a\r\n",
        b":+5\r\n",
        b":-5\r\n",
        b": 5\r\n",
        b":18446744073709551616\r\n",
        b":99999999999999999999999\r\n",
        b"$x\r\n",
        b"*-1\r\n",
    ];
    for bytes in bad {
        assert_eq!(probe(bytes), Err(FrameError::Other(Malformed::Decimal)), "check of {:?}", bytes);
        assert!(
            matches!(decode(bytes), Err(FrameError::Other(Malformed::Decimal))),
            "parse of {:?}",
            bytes
        );
    }
    assert!(same(&decode(b":18446744073709551615\r\n").unwrap().0, &Frame::Integer(u64::MAX)));
    assert!(same(&decode(b":007\r\n").unwrap().0, &Frame::Integer(7)));
    assert!(same(&decode(b":0\r\n").unwrap().0, &Frame::Integer(0)));
}

#[test]
fn a_bulk_is_taken_by_its_length() {
    let (frame, used) = decode(b"$5\r\na\r\nb!\r\n").unwrap();
    assert!(same(&frame, &bulk("a\r\nb!")));
    assert_eq!(used, 11);
    // The two bytes behind the payload are passed over unread.
    let (frame, used) = decode(b"$1\r\naXY").unwrap();
    assert!(same(&frame, &bulk("a")));
    assert_eq!(used, 7);
    assert_eq!(probe(b"$1\r\naXY"), Ok(7));
}

#[test]
fn a_huge_bulk_length_is_incomplete_or_refused() {
    let r = probe(b"$18446744073709551615\r\nabc\r\n");
    if usize::BITS >= 64 {
        assert_eq!(r, Err(FrameError::Incomplete));
    } else {
        assert_eq!(r, Err(FrameError::Other(Malformed::Length)));
    }
    assert!(decode(b"$18446744073709551615\r\nabc\r\n").is_err());
    assert_eq!(probe(b"$18446744073709551614\r\nabc\r\n").is_err(), true);
}

#[test]
fn peek_leaves_the_byte_and_get_takes_it() {
    let mut cur = Cursor::new(b"ab");
    assert_eq!(peek_u8(&mut cur), Ok(b'a'));
    assert_eq!(cur.position(), 0);
    assert_eq!(get_u8(&mut cur), Ok(b'a'));
    assert_eq!(cur.position(), 1);
    assert_eq!(get_u8(&mut cur), Ok(b'b'));
    assert_eq!(peek_u8(&mut cur), Err(FrameError::Incomplete));
    assert_eq!(get_u8(&mut cur), Err(FrameError::Incomplete));
    assert_eq!(cur.position(), 2);
}

#[test]
fn skip_moves_on_or_not_at_all() {
    let mut cur = Cursor::new(b"abcdef");
    assert_eq!(skip(&mut cur, 4), Ok(()));
    assert_eq!(cur.position(), 4);
    assert_eq!(skip(&mut cur, 3), Err(FrameError::Incomplete));
    assert_eq!(cur.position(), 4);
    assert_eq!(skip(&mut cur, 2), Ok(()));
    assert_eq!(cur.position(), 6);
    assert_eq!(skip(&mut cur, 0), Ok(()));
    assert_eq!(skip(&mut cur, usize::MAX), Err(FrameError::Incomplete));
}

#[test]
fn get_line_stops_at_the_first_line_end() {
    let mut cur = Cursor::new(b"one\r\ntwo\r\n");
    assert_eq!(get_line(&mut cur), Ok(&b"one"[..]));
    assert_eq!(cur.position(), 5);
    assert_eq!(get_line(&mut cur), Ok(&b"two"[..]));
    assert_eq!(cur.position(), 10);
    assert_eq!(get_line(&mut cur), Err(FrameError::Incomplete));
    assert_eq!(cur.position(), 10);
}

#[test]
fn get_line_wants_both_bytes_of_the_line_end() {
    let mut cur = Cursor::new(b"a\rb\nc\r");
    assert_eq!(get_line(&mut cur), Err(FrameError::Incomplete));
    assert_eq!(cur.position(), 0);
    let mut cur = Cursor::new(b"a\r\r\n");
    assert_eq!(get_line(&mut cur), Ok(&b"a\r"[..]));
    let mut cur = Cursor::new(b"\r\n");
    assert_eq!(get_line(&mut cur), Ok(&b""[..]));
    assert_eq!(cur.position(), 2);
}

#[test]
fn get_decimal_passes_over_the_line_even_if_it_is_no_number() {
    let mut cur = Cursor::new(b"12\r\nab\r\n34");
    assert_eq!(get_decimal(&mut cur), Ok(12));
    assert_eq!(cur.position(), 4);
    assert_eq!(get_decimal(&mut cur), Err(FrameError::Other(Malformed::Decimal)));
    assert_eq!(cur.position(), 8);
    assert_eq!(get_decimal(&mut cur), Err(FrameError::Incomplete));
    assert_eq!(cur.position(), 8);
}

#[test]
fn cursor_moves_within_its_window() {
    let data = b"hello";
    let mut cur = Cursor::new(data);
    assert_eq!(cur.remaining(), 5);
    assert!(cur.has_remaining());
    cur.advance(2);
    assert_eq!(cur.position(), 2);
    assert_eq!(cur.chunk(), &b"llo"[..]);
    assert_eq!(cur.get_ref(), &b"hello"[..]);
    cur.set_position(5);
    assert!(!cur.has_remaining());
    assert_eq!(cur.remaining(), 0);
    cur.set_position(99);
    assert_eq!(cur.position(), 5);
    cur.set_position(0);
    assert_eq!(cur.position(), 0);
}

#[test]
fn builders_append_to_an_array() {
    let mut frame = Frame::array();
    frame.push_bulk(Bytes::from("GET"));
    frame.push_int(5);
    assert!(same(&frame, &Frame::Array(vec![bulk("GET"), Frame::Integer(5)])));
    assert_eq!(encode(frame), b"*2\r\n$3\r\nGET\r\n:5\r\n".to_vec());
}

#[test]
fn a_failure_leaves_the_cursor_where_it_stood() {
    let bytes = b"+OK\r\n*2\r\n:1\r\n+a";
    let mut cur = Cursor::new(bytes);
    assert_eq!(Frame::check(&mut cur), Ok(()));
    assert_eq!(cur.position(), 5);
    assert_eq!(Frame::check(&mut cur), Err(FrameError::Incomplete));
    assert_eq!(cur.position(), 5);
    assert!(matches!(Frame::parse(&mut cur), Err(FrameError::Incomplete)));
    assert_eq!(cur.position(), 5);
    let mut cur = Cursor::new(b":1\r\n:x\r\n");
    assert!(matches!(Frame::parse(&mut cur), Ok(Frame::Integer(1))));
    assert!(matches!(Frame::parse(&mut cur), Err(FrameError::Other(Malformed::Decimal))));
    assert_eq!(cur.position(), 4);
}

#[test]
fn check_and_parse_start_at_the_cursor() {
    let bytes = b"junk$3\r\nfoo\r\n";
    let mut cur = Cursor::new(bytes);
    cur.set_position(4);
    assert_eq!(Frame::check(&mut cur), Ok(()));
    assert_eq!(cur.position(), 13);
    cur.set_position(4);
    let frame = Frame::parse(&mut cur).unwrap();
    assert!(same(&frame, &bulk("foo")));
    assert_eq!(cur.position(), 13);
}

#[test]
fn a_frame_equals_the_text_it_holds() {
    assert!(Frame::Simple("OK".to_string()) == "OK");
    assert!(!(Frame::Simple("OK".to_string()) == "ok"));
    assert!(Frame::Simple("caf\u{e9}".to_string()) == "caf\u{e9}");
    assert!(bulk("pong") == "pong");
    assert!(Frame::Bulk(Bytes::from("caf\u{e9}")) == "caf\u{e9}");
    assert!(!(bulk("pong") == "pon"));
    assert!(bulk("") == "");
    assert!(!(Frame::Error("OK".to_string()) == "OK"));
    assert!(!(Frame::Integer(1) == "1"));
    assert!(!(Frame::Null == ""));
    assert!(!(Frame::Array(vec![]) == ""));
}
