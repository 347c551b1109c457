use bytes::Bytes;
use resp_codec::frame::{Frame, FrameError, Malformed};

#[test]
fn strings_read_as_they_are() {
    assert_eq!(Frame::Simple("OK".to_string()).to_text(), "OK");
    assert_eq!(Frame::Simple(String::new()).to_text(), "");
    assert_eq!(Frame::Bulk(Bytes::from("pong")).to_text(), "pong");
    assert_eq!(Frame::Bulk(Bytes::from("caf\u{e9}")).to_text(), "caf\u{e9}");
}

#[test]
fn an_error_reads_behind_its_label() {
    assert_eq!(Frame::Error("boom".to_string()).to_text(), "错误error:boom");
}

#[test]
fn a_number_reads_in_digits() {
    assert_eq!(Frame::Integer(0).to_text(), "0");
    assert_eq!(Frame::Integer(42).to_text(), "42");
    assert_eq!(Frame::Integer(u64::MAX).to_text(), "18446744073709551615");
}

#[test]
fn bytes_that_are_no_text_read_escaped() {
    assert_eq!(Frame::Bulk(Bytes::from(vec![0xffu8, b'\n', b'a'])).to_text(), "b\"\\xff\\na\"");
}

#[test]
fn null_reads_nil() {
    assert_eq!(Frame::Null.to_text(), "(nil)");
}

#[test]
fn an_array_reads_without_its_first_item() {
    let frame = Frame::Array(vec![
        Frame::Bulk(Bytes::from("GET")),
        Frame::Bulk(Bytes::from("foo")),
        Frame::Integer(7),
        Frame::Null,
    ]);
    assert_eq!(frame.to_text(), " foo 7 (nil)");
    assert_eq!(Frame::Array(vec![]).to_text(), "");
    assert_eq!(Frame::Array(vec![Frame::Integer(1)]).to_text(), "");
    let nested = Frame::Array(vec![
        Frame::Null,
        Frame::Array(vec![Frame::Integer(1), Frame::Integer(2)]),
        Frame::Simple("x".to_string()),
    ]);
    assert_eq!(nested.to_text(), "  2 x");
}

#[test]
fn errors_read_as_text() {
    assert_eq!(FrameError::Incomplete.to_text(), "流过早关闭");
    assert_eq!(
        FrameError::Other(Malformed::Prefix(b'?')).to_text(),
        "错误error:校验发生错误，错误内容：63"
    );
    assert_eq!(FrameError::Other(Malformed::Decimal).to_text(), "错误error:从流中获取u64失败");
    assert_eq!(
        FrameError::Other(Malformed::Length).to_text(),
        "错误error:out of range integral type conversion attempted"
    );
    assert_eq!(FrameError::Other(Malformed::Text).to_text(), "错误error:invalid utf-8 sequence");
    assert_eq!(
        FrameError::Other(Malformed::Null).to_text(),
        "错误error:非法协议，大容量字符串长度为-1以外负数"
    );
    assert_eq!(Malformed::Prefix(0).to_text(), "校验发生错误，错误内容：0");
}
