//! The wire format, as functions on byte sequences.
//!
//! ```text
//! +<text>\r\n                 simple string
//! -<text>\r\n                 error string
//! :<unsigned-int>\r\n         integer
//! $<len>\r\n<len bytes>\r\n   bulk string
//! $-1\r\n                     null
//! *<count>\r\n<count frames>  array of frames
//! ```

use vstd::prelude::*;
use vstd::utf8::{decode_utf8, encode_utf8, valid_utf8};
use crate::decimal::{decimal_digits, decimal_value, is_decimal};
use crate::frame::{FrameError, FrameView, Malformed};

verus! {

/// Carriage return, the first byte of a line end.
pub const CR: u8 = 0x0d;

/// Line feed, the second byte of a line end.
pub const LF: u8 = 0x0a;

/// `+`, which opens a simple string.
pub const SIMPLE: u8 = 0x2b;

/// `-`, which opens an error string.
pub const ERROR: u8 = 0x2d;

/// `:`, which opens an integer.
pub const INTEGER: u8 = 0x3a;

/// `$`, which opens a bulk string or the null frame.
pub const BULK: u8 = 0x24;

/// `*`, which opens an array.
pub const ARRAY: u8 = 0x2a;

/// `-`, which behind `$` opens the null frame.
pub const MINUS: u8 = 0x2d;

/// The two bytes that end a line.
pub open spec fn crlf() -> Seq<u8> {
    seq![CR, LF]
}

/// A line end starts at index `i` of `s`.
pub open spec fn crlf_at(s: Seq<u8>, i: int) -> bool {
    0 <= i && i + 1 < s.len() && s[i] == CR && s[i + 1] == LF
}

/// The number of bytes of `s` from `pos` to the end, none where `pos` is
/// at the end or past it.
pub open spec fn left(s: Seq<u8>, pos: int) -> nat {
    if pos < s.len() {
        (s.len() - pos) as nat
    } else {
        0
    }
}

/// The byte at `pos`.
pub open spec fn byte_at(s: Seq<u8>, pos: int) -> Result<u8, FrameError> {
    if 0 <= pos < s.len() {
        Ok(s[pos])
    } else {
        Err(FrameError::Incomplete)
    }
}

/// The number of bytes between `pos` and the first line end at or after
/// it; `None` where no line end follows.
pub open spec fn line_len(s: Seq<u8>, pos: int) -> Option<nat>
    decreases left(s, pos),
{
    if pos < 0 || pos + 1 >= s.len() {
        None
    } else if s[pos] == CR && s[pos + 1] == LF {
        Some(0)
    } else {
        match line_len(s, pos + 1) {
            Some(n) => Some(n + 1),
            None => None,
        }
    }
}

/// The line that starts at `pos`, without its line end, and the number of
/// bytes that the line and its end take.
pub open spec fn line_at(s: Seq<u8>, pos: int) -> Result<(Seq<u8>, nat), FrameError> {
    match line_len(s, pos) {
        Some(n) => Ok((s.subrange(pos, pos + n), n + 2)),
        None => Err(FrameError::Incomplete),
    }
}

/// The decimal number on the line that starts at `pos`, and the number of
/// bytes that the line and its end take.
pub open spec fn decimal_at(s: Seq<u8>, pos: int) -> Result<(u64, nat), FrameError> {
    match line_at(s, pos) {
        Err(e) => Err(e),
        Ok((line, used)) => if is_decimal(line) && decimal_value(line) <= u64::MAX {
            Ok((decimal_value(line) as u64, used))
        } else {
            Err(FrameError::Other(Malformed::Decimal))
        },
    }
}

/// Passing over `count` bytes from `pos`.
pub open spec fn skip_at(s: Seq<u8>, pos: int, count: nat) -> Result<nat, FrameError> {
    if left(s, pos) < count {
        Err(FrameError::Incomplete)
    } else {
        Ok(count)
    }
}

/// The number of bytes that the frame starting at `pos` takes, found
/// without decoding what it holds.
pub open spec fn frame_len(s: Seq<u8>, pos: int) -> Result<nat, FrameError>
    decreases left(s, pos), 0nat,
{
    if pos < 0 || pos >= s.len() {
        Err(FrameError::Incomplete)
    } else if s[pos] == SIMPLE || s[pos] == ERROR {
        match line_at(s, pos + 1) {
            Err(e) => Err(e),
            Ok((_, used)) => Ok(1 + used),
        }
    } else if s[pos] == INTEGER {
        match decimal_at(s, pos + 1) {
            Err(e) => Err(e),
            Ok((_, used)) => Ok(1 + used),
        }
    } else if s[pos] == BULK {
        if pos + 1 >= s.len() {
            Err(FrameError::Incomplete)
        } else if s[pos + 1] == MINUS {
            match skip_at(s, pos + 1, 4) {
                Err(e) => Err(e),
                Ok(used) => Ok(1 + used),
            }
        } else {
            match decimal_at(s, pos + 1) {
                Err(e) => Err(e),
                Ok((size, used)) => if size > usize::MAX {
                    Err(FrameError::Other(Malformed::Length))
                } else {
                    match skip_at(s, pos + 1 + used, (size + 2) as nat) {
                        Err(e) => Err(e),
                        Ok(body) => Ok(1 + used + body),
                    }
                },
            }
        }
    } else if s[pos] == ARRAY {
        match decimal_at(s, pos + 1) {
            Err(e) => Err(e),
            Ok((count, used)) => match frames_len(s, pos + 1 + used, count as nat) {
                Err(e) => Err(e),
                Ok(body) => Ok(1 + used + body),
            },
        }
    } else {
        Err(FrameError::Other(Malformed::Prefix(s[pos])))
    }
}

/// The number of bytes that `count` frames in a row take, the first one
/// starting at `pos`.
pub open spec fn frames_len(s: Seq<u8>, pos: int, count: nat) -> Result<nat, FrameError>
    decreases left(s, pos), count + 1,
{
    if count == 0 {
        Ok(0)
    } else {
        match frame_len(s, pos) {
            Err(e) => Err(e),
            Ok(first) => match frames_len(s, pos + first, (count - 1) as nat) {
                Err(e) => Err(e),
                Ok(others) => Ok(first + others),
            },
        }
    }
}

/// The text `-1`, which after `$` writes the null frame.
pub open spec fn null_marker() -> Seq<u8> {
    seq![MINUS, 0x31u8]
}

/// The frame that starts at `pos`, and the number of bytes that it takes.
pub open spec fn frame_at(s: Seq<u8>, pos: int) -> Result<(FrameView, nat), FrameError>
    decreases left(s, pos), 0nat,
{
    if pos < 0 || pos >= s.len() {
        Err(FrameError::Incomplete)
    } else if s[pos] == SIMPLE || s[pos] == ERROR {
        match line_at(s, pos + 1) {
            Err(e) => Err(e),
            Ok((line, used)) => if !valid_utf8(line) {
                Err(FrameError::Other(Malformed::Text))
            } else if s[pos] == SIMPLE {
                Ok((FrameView::Simple(decode_utf8(line)), 1 + used))
            } else {
                Ok((FrameView::Error(decode_utf8(line)), 1 + used))
            },
        }
    } else if s[pos] == INTEGER {
        match decimal_at(s, pos + 1) {
            Err(e) => Err(e),
            Ok((value, used)) => Ok((FrameView::Integer(value), 1 + used)),
        }
    } else if s[pos] == BULK {
        if pos + 1 >= s.len() {
            Err(FrameError::Incomplete)
        } else if s[pos + 1] == MINUS {
            match line_at(s, pos + 1) {
                Err(e) => Err(e),
                Ok((line, used)) => if line == null_marker() {
                    Ok((FrameView::Null, 1 + used))
                } else {
                    Err(FrameError::Other(Malformed::Null))
                },
            }
        } else {
            match decimal_at(s, pos + 1) {
                Err(e) => Err(e),
                Ok((size, used)) => if size > usize::MAX {
                    Err(FrameError::Other(Malformed::Length))
                } else {
                    match skip_at(s, pos + 1 + used, (size + 2) as nat) {
                        Err(e) => Err(e),
                        Ok(body) => Ok(
                            (
                                FrameView::Bulk(
                                    s.subrange(pos + 1 + used, pos + 1 + used + size),
                                ),
                                1 + used + body,
                            ),
                        ),
                    }
                },
            }
        }
    } else if s[pos] == ARRAY {
        match decimal_at(s, pos + 1) {
            Err(e) => Err(e),
            Ok((count, used)) => match frames_at(s, pos + 1 + used, count as nat) {
                Err(e) => Err(e),
                Ok((items, body)) => Ok((FrameView::Array(items), 1 + used + body)),
            },
        }
    } else {
        Err(FrameError::Other(Malformed::Prefix(s[pos])))
    }
}

/// `count` frames in a row, the first one starting at `pos`, and the
/// number of bytes that they take together.
pub open spec fn frames_at(s: Seq<u8>, pos: int, count: nat) -> Result<
    (Seq<FrameView>, nat),
    FrameError,
>
    decreases left(s, pos), count + 1,
{
    if count == 0 {
        Ok((Seq::empty(), 0))
    } else {
        match frame_at(s, pos) {
            Err(e) => Err(e),
            Ok((first, used)) => match frames_at(s, pos + used, (count - 1) as nat) {
                Err(e) => Err(e),
                Ok((others, more)) => Ok((seq![first] + others, used + more)),
            },
        }
    }
}

/// The bytes that write a frame which is no array.
pub open spec fn encode_value(frame: FrameView) -> Seq<u8> {
    match frame {
        FrameView::Simple(text) => seq![SIMPLE] + encode_utf8(text) + crlf(),
        FrameView::Error(text) => seq![ERROR] + encode_utf8(text) + crlf(),
        FrameView::Integer(value) => seq![INTEGER] + decimal_digits(value as nat) + crlf(),
        FrameView::Bulk(data) => seq![BULK] + decimal_digits(data.len()) + crlf() + data + crlf(),
        FrameView::Null => seq![BULK] + null_marker() + crlf(),
        FrameView::Array(_) => Seq::empty(),
    }
}

/// The bytes that write the frames of `items` one after the other.
pub open spec fn encode_values(items: Seq<FrameView>) -> Seq<u8>
    decreases items.len(),
{
    if items.len() == 0 {
        Seq::empty()
    } else {
        encode_value(items.first()) + encode_values(items.drop_first())
    }
}

/// The bytes that write a frame. An array is written as its count and
/// then its items, none of which may be an array itself.
pub open spec fn encode(frame: FrameView) -> Seq<u8> {
    match frame {
        FrameView::Array(items) => seq![ARRAY] + decimal_digits(items.len()) + crlf()
            + encode_values(items),
        _ => encode_value(frame),
    }
}

/// No item of `frame` is an array.
pub open spec fn is_flat(frame: FrameView) -> bool {
    match frame {
        FrameView::Array(items) => forall|i: int|
            0 <= i < items.len() ==> !(#[trigger] items[i] is Array),
        _ => true,
    }
}

/// Writing one more item appends its bytes.
pub proof fn lemma_encode_values_push(items: Seq<FrameView>, last: FrameView)
    ensures
        encode_values(items.push(last)) == encode_values(items) + encode_value(last),
    decreases items.len(),
{
    let all = items.push(last);
    if items.len() == 0 {
        assert(all.drop_first() =~= Seq::<FrameView>::empty());
        assert(encode_values(all.drop_first()) =~= Seq::<u8>::empty());
        assert(encode_values(all) =~= encode_value(last));
        assert(encode_values(items) + encode_value(last) =~= encode_value(last));
    } else {
        assert(all.drop_first() =~= items.drop_first().push(last));
        lemma_encode_values_push(items.drop_first(), last);
        assert(encode_values(all) =~= encode_values(items) + encode_value(last));
    }
}

} // verus!
