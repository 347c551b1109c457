use bytes::Bytes;
use dashmap::DashMap;
use resp_codec::cmd::{execute, get_reply, Command};
use resp_codec::conn::{Connection, ReadError, ReadStep};
use resp_codec::cursor::Cursor;
use resp_codec::frame::{Frame, FrameError, Malformed};
use resp_codec::parse::{Mismatch, Parse, ParseError};

fn is_bulk(frame: &Frame, want: &[u8]) -> bool {
    matches!(frame, Frame::Bulk(data) if &data[..] == want)
}

fn decode(bytes: &[u8]) -> Frame {
    let mut cur = Cursor::new(bytes);
    Frame::parse(&mut cur).unwrap()
}

#[test]
fn a_new_connection_is_empty() {
    let mut conn = Connection::new();
    assert_eq!(conn.buffered_len(), 0);
    assert_eq!(conn.take_unsent(), Vec::<u8>::new());
    assert!(matches!(conn.parse_frame(), Ok(None)));
}

#[test]
fn peer_close_on_an_empty_buffer_is_a_clean_end() {
    let mut conn = Connection::new();
    assert!(matches!(conn.read_frame(None), ReadStep::Read));
    assert!(matches!(conn.read_frame(Some(&b""[..])), ReadStep::Closed));
}

#[test]
fn peer_close_in_the_middle_of_a_frame_is_a_reset() {
    let mut conn = Connection::new();
    assert!(matches!(conn.read_frame(None), ReadStep::Read));
    assert!(matches!(conn.read_frame(Some(&b"$4\r\npo"[..])), ReadStep::Read));
    assert!(matches!(conn.read_frame(Some(&b""[..])), ReadStep::Failed(ReadError::Reset)));
    assert_eq!(conn.buffered_len(), 6);
}

#[test]
fn a_frame_split_at_any_byte_still_arrives() {
    let whole = b"*2\r\n$3\r\nGET\r\n$4\r\nping\r\n";
    for k in 0..whole.len() {
        let mut conn = Connection::new();
        assert!(matches!(conn.read_frame(None), ReadStep::Read));
        if k > 0 {
            assert!(matches!(conn.read_frame(Some(&whole[..k])), ReadStep::Read), "split at {}", k);
        }
        assert_eq!(conn.buffered_len(), k);
        match conn.read_frame(Some(&whole[k..])) {
            ReadStep::Frame(Frame::Array(items)) => {
                assert_eq!(items.len(), 2);
                assert!(is_bulk(&items[0], b"GET"));
                assert!(is_bulk(&items[1], b"ping"));
            }
            other => panic!("split at {}: {:?}", k, other),
        }
        assert_eq!(conn.buffered_len(), 0);
    }
}

#[test]
fn a_frame_delivered_byte_by_byte_arrives_once() {
    let whole = b"$4\r\npong\r\n";
    let mut conn = Connection::new();
    assert!(matches!(conn.read_frame(None), ReadStep::Read));
    for i in 0..whole.len() - 1 {
        assert!(matches!(conn.read_frame(Some(&whole[i..i + 1])), ReadStep::Read));
    }
    match conn.read_frame(Some(&whole[whole.len() - 1..])) {
        ReadStep::Frame(frame) => assert!(is_bulk(&frame, b"pong")),
        other => panic!("{:?}", other),
    }
    assert!(matches!(conn.read_frame(None), ReadStep::Read));
}

#[test]
fn frames_that_arrive_together_come_out_one_by_one() {
    let mut conn = Connection::new();
    match conn.read_frame(Some(&b"+OK\r\n:7\r\n$1"[..])) {
        ReadStep::Frame(Frame::Simple(text)) => assert_eq!(text, "OK"),
        other => panic!("{:?}", other),
    }
    assert_eq!(conn.buffered_len(), 6);
    match conn.read_frame(None) {
        ReadStep::Frame(Frame::Integer(7)) => {}
        other => panic!("{:?}", other),
    }
    assert_eq!(conn.buffered_len(), 2);
    assert!(matches!(conn.read_frame(None), ReadStep::Read));
    match conn.read_frame(Some(&b"\r\nx\r\n"[..])) {
        ReadStep::Frame(frame) => assert!(is_bulk(&frame, b"x")),
        other => panic!("{:?}", other),
    }
    assert_eq!(conn.buffered_len(), 0);
}

#[test]
fn malformed_bytes_fail_the_read_and_stay_buffered() {
    let mut conn = Connection::new();
    assert!(matches!(
        conn.read_frame(Some(&b"?\r\n"[..])),
        ReadStep::Failed(ReadError::Frame(FrameError::Other(Malformed::Prefix(b'?'))))
    ));
    assert_eq!(conn.buffered_len(), 3);
}

#[test]
fn what_check_passes_and_parse_refuses_fails_the_read() {
    let mut conn = Connection::new();
    assert!(matches!(
        conn.read_frame(Some(&b"+\xff\r\n"[..])),
        ReadStep::Failed(ReadError::Frame(FrameError::Other(Malformed::Text)))
    ));
    assert_eq!(conn.buffered_len(), 4);
    let mut conn = Connection::new();
    assert!(matches!(
        conn.read_frame(Some(&b"$-2\r\n"[..])),
        ReadStep::Failed(ReadError::Frame(FrameError::Other(Malformed::Null)))
    ));
}

#[test]
fn parse_frame_takes_exactly_one_frame() {
    let mut conn = Connection::new();
    assert!(matches!(conn.read_frame(Some(&b"$-1\r\n$-1\r\n"[..])), ReadStep::Frame(Frame::Null)));
    assert_eq!(conn.buffered_len(), 5);
    assert!(matches!(conn.parse_frame(), Ok(Some(Frame::Null))));
    assert_eq!(conn.buffered_len(), 0);
    assert!(matches!(conn.parse_frame(), Ok(None)));
}

#[test]
fn get_of_a_present_key_answers_with_its_value() {
    let db: DashMap<String, Bytes> = DashMap::new();
    db.insert("ping".to_string(), Bytes::from("pong"));
    let frame = decode(b"*2\r\n$3\r\nGET\r\n$4\r\nping\r\n");
    let mut parse = Parse::new(frame).unwrap();
    assert_eq!(parse.next_string().unwrap(), "GET");
    let key = parse.next_string().unwrap();
    assert!(matches!(parse.next(), Err(ParseError::EndOfStream)));
    let reply = execute(&Command::Get(key), &db).unwrap();
    assert!(is_bulk(&reply, b"pong"));
    let mut conn = Connection::new();
    conn.write_frame(reply);
    assert_eq!(conn.take_unsent(), b"$4\r\npong\r\n".to_vec());
}

#[test]
fn get_of_a_missing_key_answers_with_null() {
    let db: DashMap<String, Bytes> = DashMap::new();
    db.insert("ping".to_string(), Bytes::from("pong"));
    let frame = decode(b"*2\r\n$3\r\nGET\r\n$7\r\nmissing\r\n");
    let mut parse = Parse::new(frame).unwrap();
    assert_eq!(parse.next_string().unwrap(), "GET");
    let key = parse.next_string().unwrap();
    assert_eq!(key, "missing");
    let reply = execute(&Command::Get(key), &db).unwrap();
    assert!(matches!(reply, Frame::Null));
}

#[test]
fn other_commands_have_no_answer() {
    let db: DashMap<String, Bytes> = DashMap::new();
    assert!(execute(&Command::Unsupported, &db).is_none());
}

#[test]
fn get_reply_wraps_the_value() {
    assert!(is_bulk(&get_reply(Some(Bytes::from("v"))), b"v"));
    assert!(matches!(get_reply(None), Frame::Null));
}

#[test]
fn tokenizer_wants_an_array() {
    assert!(matches!(Parse::new(Frame::Null), Err(ParseError::Other(Mismatch::NotArray))));
    assert!(matches!(
        Parse::new(Frame::Simple("GET".to_string())),
        Err(ParseError::Other(Mismatch::NotArray))
    ));
    assert!(Parse::new(Frame::Array(vec![])).is_ok());
}

#[test]
fn tokenizer_gives_the_items_in_order() {
    let frame = Frame::Array(vec![Frame::Integer(1), Frame::Null, Frame::Integer(3)]);
    let mut parse = Parse::new(frame).unwrap();
    assert!(matches!(parse.next(), Ok(Frame::Integer(1))));
    assert!(matches!(parse.next(), Ok(Frame::Null)));
    assert!(matches!(parse.next(), Ok(Frame::Integer(3))));
    assert!(matches!(parse.next(), Err(ParseError::EndOfStream)));
    assert!(matches!(parse.next(), Err(ParseError::EndOfStream)));
}

#[test]
fn next_string_takes_simple_and_bulk() {
    let frame = Frame::Array(vec![
        Frame::Simple("get".to_string()),
        Frame::Bulk(Bytes::from("caf\u{e9}")),
        Frame::Bulk(Bytes::from(vec![0xffu8, 0xfe])),
        Frame::Integer(5),
        Frame::Error("e".to_string()),
        Frame::Null,
        Frame::Array(vec![]),
    ]);
    let mut parse = Parse::new(frame).unwrap();
    assert_eq!(parse.next_string().unwrap(), "get");
    assert_eq!(parse.next_string().unwrap(), "caf\u{e9}");
    assert_eq!(parse.next_string(), Err(ParseError::Other(Mismatch::InvalidText)));
    assert_eq!(parse.next_string(), Err(ParseError::Other(Mismatch::NotText)));
    assert_eq!(parse.next_string(), Err(ParseError::Other(Mismatch::NotText)));
    assert_eq!(parse.next_string(), Err(ParseError::Other(Mismatch::NotText)));
    assert_eq!(parse.next_string(), Err(ParseError::Other(Mismatch::NotText)));
    assert_eq!(parse.next_string(), Err(ParseError::EndOfStream));
}
