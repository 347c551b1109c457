//! Frames and errors as text for people to read.

use bytes::Bytes;
use vstd::prelude::*;
use vstd::slice::slice_to_vec;
use vstd::string::StringExecFns;
use vstd::utf8::{decode_utf8, valid_utf8};
use crate::buf::{bytes_as_slice, bytes_seq};
use crate::decimal::decimal_digits;
use crate::frame::{lemma_array_view, string_from_utf8, views_of, Frame, FrameError, FrameView, Malformed};

verus! {

/// The digits of `n` as characters.
pub open spec fn digits_text(n: nat) -> Seq<char> {
    Seq::new(decimal_digits(n).len(), |i: int| decimal_digits(n)[i] as char)
}

/// What the `Debug` form of a `Bytes` value reads, given the bytes that
/// it holds.
pub uninterp spec fn escaped_text(data: Seq<u8>) -> Seq<char>;

/// `u64::to_string`: the number in decimal digits.
#[verifier::external_body]
fn decimal_string(val: u64) -> (r: String)
    ensures
        r@ == digits_text(val as nat),
{
    val.to_string()
}

/// `Debug` for `Bytes`, through `format!`: the bytes between `b"` and
/// `"`, with escapes for what is not printable ASCII.
#[verifier::external_body]
fn escaped_string(data: &Bytes) -> (r: String)
    ensures
        r@ == escaped_text(bytes_seq(*data)),
{
    format!("{:?}", data)
}

/// A frame as text: a string as it is, an error behind a label, a
/// number in digits, bulk bytes as the text they encode or else escaped,
/// and of an array every item but the first, each behind a space.
pub open spec fn frame_text(frame: FrameView) -> Seq<char>
    decreases frame, 0nat,
{
    match frame {
        FrameView::Simple(text) => text,
        FrameView::Error(msg) => "错误error:"@ + msg,
        FrameView::Integer(value) => digits_text(value as nat),
        FrameView::Bulk(data) => if valid_utf8(data) {
            decode_utf8(data)
        } else {
            escaped_text(data)
        },
        FrameView::Null => "(nil)"@,
        FrameView::Array(items) => items_text(items, 1),
    }
}

/// The items of `items` from index `from` on as text, each behind a space.
pub open spec fn items_text(items: Seq<FrameView>, from: int) -> Seq<char>
    decreases items, items.len() - from,
{
    if from < 0 || from >= items.len() {
        Seq::empty()
    } else {
        " "@ + frame_text(items[from]) + items_text(items, from + 1)
    }
}

/// Why bytes are no frame, as text.
pub open spec fn malformed_text(cause: Malformed) -> Seq<char> {
    match cause {
        Malformed::Prefix(byte) => "校验发生错误，错误内容："@ + digits_text(byte as nat),
        Malformed::Decimal => "从流中获取u64失败"@,
        Malformed::Length => "out of range integral type conversion attempted"@,
        Malformed::Text => "invalid utf-8 sequence"@,
        Malformed::Null => "非法协议，大容量字符串长度为-1以外负数"@,
    }
}

/// Why no frame came out of the bytes, as text.
pub open spec fn error_text(error: FrameError) -> Seq<char> {
    match error {
        FrameError::Incomplete => "流过早关闭"@,
        FrameError::Other(cause) => "错误error:"@ + malformed_text(cause),
    }
}

impl Frame {
    /// The frame as text for people to read.
    pub fn to_text(&self) -> (r: String)
        ensures
            r@ == frame_text(self@),
        decreases self,
    {
        match self {
            Frame::Simple(text) => text.clone(),
            Frame::Error(msg) => {
                let mut out = String::from_str("错误error:");
                out.append(msg.as_str());
                out
            },
            Frame::Integer(value) => decimal_string(*value),
            Frame::Bulk(data) => {
                match string_from_utf8(slice_to_vec(bytes_as_slice(data))) {
                    Some(text) => text,
                    None => escaped_string(data),
                }
            },
            Frame::Null => String::from_str("(nil)"),
            Frame::Array(items) => {
                proof {
                    lemma_array_view(*items);
                }
                let ghost all = views_of(items@);
                let mut out = String::new();
                let mut i: usize = 1;
                while i < items.len()
                    invariant
                        1 <= i,
                        *self == Frame::Array(*items),
                        all == views_of(items@),
                        items_text(all, 1) == out@ + items_text(all, i as int),
                    decreases items.len() - i,
                {
                    proof {
                        assert(*items == self->Array_0);
                        assert(decreases_to!(*self => self->Array_0));
                        vstd::std_specs::vec::axiom_vec_index_decreases(*items, i as int);
                    }
                    let part = items[i].to_text();
                    let ghost before = out@;
                    out.append(" ");
                    out.append(part.as_str());
                    proof {
                        assert(all[i as int] == items@[i as int]@);
                        assert(before + (" "@ + frame_text(all[i as int]) + items_text(
                            all,
                            i + 1,
                        )) =~= out@ + items_text(all, i + 1));
                    }
                    i = i + 1;
                }
                proof {
                    assert(out@ + Seq::<char>::empty() =~= out@);
                }
                out
            },
        }
    }
}

impl Malformed {
    /// The cause as text for people to read.
    pub fn to_text(&self) -> (r: String)
        ensures
            r@ == malformed_text(*self),
    {
        match self {
            Malformed::Prefix(byte) => {
                let mut out = String::from_str("校验发生错误，错误内容：");
                let digits = decimal_string(*byte as u64);
                out.append(digits.as_str());
                out
            },
            Malformed::Decimal => String::from_str("从流中获取u64失败"),
            Malformed::Length => String::from_str(
                "out of range integral type conversion attempted",
            ),
            Malformed::Text => String::from_str("invalid utf-8 sequence"),
            Malformed::Null => String::from_str("非法协议，大容量字符串长度为-1以外负数"),
        }
    }
}

impl FrameError {
    /// The error as text for people to read.
    pub fn to_text(&self) -> (r: String)
        ensures
            r@ == error_text(*self),
    {
        match self {
            FrameError::Incomplete => String::from_str("流过早关闭"),
            FrameError::Other(cause) => {
                let mut out = String::from_str("错误error:");
                let text = cause.to_text();
                out.append(text.as_str());
                out
            },
        }
    }
}

} // verus!
