//! What holds of the codec as a whole.

use vstd::prelude::*;
use vstd::utf8::{decode_utf8, encode_utf8, valid_utf8};
use crate::conn::take_frame;
use crate::decimal::{decimal_digits, is_digit, lemma_digits_roundtrip};
use crate::frame::{FrameError, FrameView};
use crate::grammar::{
    crlf, crlf_at, decimal_at, encode, encode_value, encode_values, frame_at, frame_len,
    frames_at, frames_len, is_flat, left, line_at, line_len, null_marker, skip_at, ARRAY, BULK,
    CR, ERROR, INTEGER, LF, MINUS, SIMPLE,
};

verus! {

/// A line ends at the first line end: `line_len` gives `n` exactly where a
/// line end starts `n` bytes after `pos` and none starts before.
pub proof fn lemma_line_len(s: Seq<u8>, pos: int)
    requires
        0 <= pos,
    ensures
        match line_len(s, pos) {
            Some(n) => crlf_at(s, pos + n) && forall|j: int| pos <= j < pos + n ==> !crlf_at(s, j),
            None => forall|j: int| pos <= j ==> !crlf_at(s, j),
        },
    decreases left(s, pos),
{
    if pos + 1 >= s.len() {
    } else if s[pos] == CR && s[pos + 1] == LF {
    } else {
        lemma_line_len(s, pos + 1);
    }
}

/// The converse: a first line end `n` bytes after `pos` is what `line_len`
/// finds.
pub proof fn lemma_line_len_found(s: Seq<u8>, pos: int, n: nat)
    requires
        0 <= pos,
        crlf_at(s, pos + n),
        forall|j: int| pos <= j < pos + n ==> !crlf_at(s, j),
    ensures
        line_len(s, pos) == Some(n),
    decreases n,
{
    if n == 0 {
    } else {
        assert(!crlf_at(s, pos));
        lemma_line_len_found(s, pos + 1, (n - 1) as nat);
    }
}

/// No line end starts anywhere in `bytes`.
pub open spec fn no_line_end(bytes: Seq<u8>) -> bool {
    forall|i: int| !crlf_at(bytes, i)
}

/// A frame that is no array, whose written form reads back as itself: a
/// text holds no line end, and a bulk's length fits this machine's sizes.
pub open spec fn value_encodable(frame: FrameView) -> bool {
    match frame {
        FrameView::Simple(text) => no_line_end(encode_utf8(text)),
        FrameView::Error(text) => no_line_end(encode_utf8(text)),
        FrameView::Integer(_) => true,
        FrameView::Bulk(data) => data.len() <= usize::MAX,
        FrameView::Null => true,
        FrameView::Array(_) => false,
    }
}

/// A frame whose written form reads back as itself: one that is no array
/// and encodable, or an array of such frames whose count fits in 64 bits.
pub open spec fn encodable(frame: FrameView) -> bool {
    match frame {
        FrameView::Array(items) => items.len() <= u64::MAX && forall|i: int|
            0 <= i < items.len() ==> value_encodable(#[trigger] items[i]),
        _ => value_encodable(frame),
    }
}

/// A part of a window of `s` is the same part of what the window holds.
proof fn lemma_window_part(s: Seq<u8>, pos: int, e: Seq<u8>, a: int, b: int)
    requires
        0 <= pos,
        pos + e.len() <= s.len(),
        s.subrange(pos, pos + e.len()) == e,
        0 <= a <= b <= e.len(),
    ensures
        s.subrange(pos + a, pos + b) == e.subrange(a, b),
{
    let w = s.subrange(pos, pos + e.len());
    assert forall|j: int| 0 <= j < b - a implies s.subrange(pos + a, pos + b)[j] == e.subrange(
        a,
        b,
    )[j] by {
        assert(s[pos + a + j] == w[a + j]);
    }
    assert(s.subrange(pos + a, pos + b) =~= e.subrange(a, b));
}

/// Where `s` holds the digits of `n` and a line end at `pos`, the decimal
/// read there is `n`.
proof fn lemma_decimal_reads_back(s: Seq<u8>, pos: int, n: nat)
    requires
        0 <= pos,
        n <= u64::MAX,
        pos + decimal_digits(n).len() + 2 <= s.len(),
        s.subrange(pos, pos + decimal_digits(n).len() + 2) == decimal_digits(n) + crlf(),
    ensures
        decimal_at(s, pos) == Ok::<(u64, nat), FrameError>(
            (n as u64, decimal_digits(n).len() + 2),
        ),
{
    let d = decimal_digits(n);
    let w = s.subrange(pos, pos + d.len() + 2);
    lemma_digits_roundtrip(n);
    assert forall|j: int| pos <= j < pos + d.len() implies !crlf_at(s, j) by {
        assert(s[j] == w[j - pos]);
        assert(w[j - pos] == d[j - pos]);
        assert(is_digit(d[j - pos]));
    }
    let k = d.len() as int;
    assert(s[pos + k] == w[k]);
    assert(s[pos + k + 1] == w[k + 1]);
    lemma_line_len_found(s, pos, d.len());
    assert(s.subrange(pos, pos + d.len()) =~= d) by {
        assert forall|j: int| 0 <= j < d.len() implies s[pos + j] == d[j] by {
            assert(s[pos + j] == w[j]);
        }
    }
}

/// A frame that is no array reads back from where its written form
/// stands, whatever stands before and behind it.
pub proof fn lemma_value_reads_back(s: Seq<u8>, pos: int, frame: FrameView)
    requires
        value_encodable(frame),
        0 <= pos,
        pos + encode_value(frame).len() <= s.len(),
        s.subrange(pos, pos + encode_value(frame).len()) == encode_value(frame),
    ensures
        frame_at(s, pos) == Ok::<(FrameView, nat), FrameError>(
            (frame, encode_value(frame).len()),
        ),
        frame_len(s, pos) == Ok::<nat, FrameError>(encode_value(frame).len()),
{
    broadcast use vstd::utf8::encode_utf8_valid_utf8, vstd::utf8::encode_utf8_decode_utf8;

    let e = encode_value(frame);
    let w = s.subrange(pos, pos + e.len());
    assert forall|i: int| 0 <= i < e.len() implies s[pos + i] == e[i] by {
        assert(s[pos + i] == w[i]);
    }
    match frame {
        FrameView::Simple(text) => {
            let t = encode_utf8(text);
            assert(s[pos] == e[0]);
            lemma_window_part(s, pos, e, 1, e.len() as int);
            assert(e.subrange(1, e.len() as int) =~= t + crlf());
            lemma_text_reads_back(s, pos, t);
        },
        FrameView::Error(text) => {
            let t = encode_utf8(text);
            assert(s[pos] == e[0]);
            lemma_window_part(s, pos, e, 1, e.len() as int);
            assert(e.subrange(1, e.len() as int) =~= t + crlf());
            lemma_text_reads_back(s, pos, t);
        },
        FrameView::Integer(value) => {
            let d = decimal_digits(value as nat);
            assert(s[pos] == e[0]);
            lemma_window_part(s, pos, e, 1, e.len() as int);
            assert(e.subrange(1, e.len() as int) =~= d + crlf());
            lemma_decimal_reads_back(s, pos + 1, value as nat);
        },
        FrameView::Bulk(data) => {
            let d = decimal_digits(data.len());
            lemma_digits_roundtrip(data.len());
            assert(s[pos] == e[0]);
            assert(s[pos + 1] == e[1]);
            assert(e[1] == d[0]);
            assert(is_digit(d[0]));
            let body = 1 + d.len() as int + 2;
            lemma_window_part(s, pos, e, 1, body);
            assert(e.subrange(1, body) =~= d + crlf());
            lemma_decimal_reads_back(s, pos + 1, data.len());
            lemma_window_part(s, pos, e, body, body + data.len());
            assert(e.subrange(body, body + data.len()) =~= data);
        },
        FrameView::Null => {
            assert(s[pos] == e[0]);
            assert(s[pos + 1] == e[1]);
            assert(s[pos + 2] == e[2]);
            assert(s[pos + 3] == e[3]);
            assert(s[pos + 4] == e[4]);
            assert(!crlf_at(s, pos + 1));
            assert(!crlf_at(s, pos + 2));
            lemma_line_len_found(s, pos + 1, 2);
            assert(s.subrange(pos + 1, pos + 3) =~= null_marker());
        },
        FrameView::Array(_) => {},
    }
}

/// Where `s` holds, from `pos`, a prefix byte, a text without a line end
/// and a line end, the line read behind the prefix byte is that text.
proof fn lemma_text_reads_back(s: Seq<u8>, pos: int, text: Seq<u8>)
    requires
        0 <= pos,
        no_line_end(text),
        pos + 1 + text.len() + 2 <= s.len(),
        s.subrange(pos + 1, pos + 1 + text.len() + 2) == text + crlf(),
    ensures
        line_at(s, pos + 1) == Ok::<(Seq<u8>, nat), FrameError>((text, text.len() + 2)),
{
    let w = s.subrange(pos + 1, pos + 1 + text.len() + 2);
    assert forall|j: int| pos + 1 <= j < pos + 1 + text.len() implies !crlf_at(s, j) by {
        let i = j - pos - 1;
        assert(s[j] == w[i]);
        assert(s[j + 1] == w[i + 1]);
        assert(!crlf_at(text, i));
        if i + 1 < text.len() {
            assert(w[i] == text[i] && w[i + 1] == text[i + 1]);
        } else {
            assert(w[i + 1] == CR);
        }
    }
    let n = text.len() as int;
    assert(s[pos + 1 + n] == w[n]);
    assert(s[pos + 1 + n + 1] == w[n + 1]);
    lemma_line_len_found(s, pos + 1, text.len());
    assert(s.subrange(pos + 1, pos + 1 + text.len()) =~= text) by {
        assert forall|j: int| 0 <= j < text.len() implies s[pos + 1 + j] == text[j] by {
            assert(s[pos + 1 + j] == w[j]);
        }
    }
}

/// Frames that are no arrays read back, in order, from where their written
/// forms stand one after the other.
pub proof fn lemma_values_read_back(s: Seq<u8>, pos: int, items: Seq<FrameView>)
    requires
        forall|i: int| 0 <= i < items.len() ==> value_encodable(#[trigger] items[i]),
        0 <= pos,
        pos + encode_values(items).len() <= s.len(),
        s.subrange(pos, pos + encode_values(items).len()) == encode_values(items),
    ensures
        frames_at(s, pos, items.len()) == Ok::<(Seq<FrameView>, nat), FrameError>(
            (items, encode_values(items).len()),
        ),
        frames_len(s, pos, items.len()) == Ok::<nat, FrameError>(encode_values(items).len()),
    decreases items.len(),
{
    if items.len() == 0 {
        assert(items =~= Seq::<FrameView>::empty());
    } else {
        let first = items.first();
        let others = items.drop_first();
        let e1 = encode_value(first);
        let e2 = encode_values(others);
        let w = s.subrange(pos, pos + encode_values(items).len());
        assert(w == e1 + e2);
        assert(s.subrange(pos, pos + e1.len()) =~= e1) by {
            assert forall|j: int| 0 <= j < e1.len() implies s[pos + j] == e1[j] by {
                assert(s[pos + j] == w[j]);
            }
        }
        assert(s.subrange(pos + e1.len(), pos + e1.len() + e2.len()) =~= e2) by {
            assert forall|j: int| 0 <= j < e2.len() implies s[pos + e1.len() + j] == e2[j] by {
                assert(s[pos + e1.len() + j] == w[e1.len() + j]);
            }
        }
        lemma_value_reads_back(s, pos, first);
        lemma_values_read_back(s, pos + e1.len(), others);
        assert(seq![first] + others =~= items);
    }
}

/// Round trip: the written form of an encodable frame decodes to that
/// frame, and the decoding takes every byte of it. Probing it for
/// completeness gives the same length.
pub proof fn lemma_roundtrip(frame: FrameView)
    requires
        encodable(frame),
    ensures
        frame_at(encode(frame), 0) == Ok::<(FrameView, nat), FrameError>(
            (frame, encode(frame).len()),
        ),
        frame_len(encode(frame), 0) == Ok::<nat, FrameError>(encode(frame).len()),
{
    let e = encode(frame);
    match frame {
        FrameView::Array(items) => {
            let d = decimal_digits(items.len());
            let body = encode_values(items);
            assert(e[0] == ARRAY);
            let at = 1 + d.len() as int + 2;
            assert(e.subrange(1, at) =~= d + crlf());
            lemma_decimal_reads_back(e, 1, items.len());
            assert(e.subrange(at, at + body.len()) =~= body);
            lemma_values_read_back(e, at, items);
        },
        _ => {
            assert(e.subrange(0, e.len() as int) =~= e);
            lemma_value_reads_back(e, 0, frame);
        },
    }
}

/// The frame at `pos` holds nothing that probing passes over and decoding
/// refuses: each text is UTF-8, and what opens with `$-` is the null frame
/// written in full.
pub open spec fn readable(s: Seq<u8>, pos: int) -> bool
    decreases left(s, pos), 0nat,
{
    if pos < 0 || pos >= s.len() {
        true
    } else if s[pos] == SIMPLE || s[pos] == ERROR {
        match line_at(s, pos + 1) {
            Ok((line, _)) => valid_utf8(line),
            Err(_) => true,
        }
    } else if s[pos] == BULK {
        pos + 1 < s.len() && s[pos + 1] == MINUS ==> line_at(s, pos + 1) == Ok::<
            (Seq<u8>, nat),
            FrameError,
        >((null_marker(), 4))
    } else if s[pos] == ARRAY {
        match decimal_at(s, pos + 1) {
            Ok((count, used)) => all_readable(s, pos + 1 + used, count as nat),
            Err(_) => true,
        }
    } else {
        true
    }
}

/// Each of `count` frames in a row, the first one starting at `pos`, is
/// readable.
pub open spec fn all_readable(s: Seq<u8>, pos: int, count: nat) -> bool
    decreases left(s, pos), count + 1,
{
    if count == 0 {
        true
    } else {
        readable(s, pos) && match frame_len(s, pos) {
            Ok(used) => all_readable(s, pos + used, (count - 1) as nat),
            Err(_) => true,
        }
    }
}

/// Probing and decoding agree: decoding succeeds exactly where probing
/// succeeds on a readable frame, and both then find the same length.
pub proof fn lemma_check_agrees_with_parse(s: Seq<u8>, pos: int)
    ensures
        frame_at(s, pos) is Ok <==> frame_len(s, pos) is Ok && readable(s, pos),
        frame_at(s, pos) is Ok ==> frame_len(s, pos) == Ok::<nat, FrameError>(
            frame_at(s, pos)->Ok_0.1,
        ),
    decreases left(s, pos), 0nat,
{
    if pos < 0 || pos >= s.len() {
    } else if s[pos] == SIMPLE || s[pos] == ERROR {
    } else if s[pos] == INTEGER {
    } else if s[pos] == BULK {
        if pos + 1 < s.len() && s[pos + 1] == MINUS {
            lemma_line_len(s, pos + 1);
            match line_at(s, pos + 1) {
                Ok((line, used)) => {
                    if line == null_marker() {
                        assert(line.len() == 2);
                    }
                },
                Err(_) => {},
            }
        }
    } else if s[pos] == ARRAY {
        match decimal_at(s, pos + 1) {
            Ok((count, used)) => {
                lemma_checks_agree_with_parses(s, pos + 1 + used, count as nat);
            },
            Err(_) => {},
        }
    } else {
    }
}

/// Probing and decoding agree on frames in a row as they do on one.
pub proof fn lemma_checks_agree_with_parses(s: Seq<u8>, pos: int, count: nat)
    ensures
        frames_at(s, pos, count) is Ok <==> frames_len(s, pos, count) is Ok && all_readable(
            s,
            pos,
            count,
        ),
        frames_at(s, pos, count) is Ok ==> frames_len(s, pos, count) == Ok::<nat, FrameError>(
            frames_at(s, pos, count)->Ok_0.1,
        ),
    decreases left(s, pos), count + 1,
{
    if count > 0 {
        lemma_check_agrees_with_parse(s, pos);
        match frame_len(s, pos) {
            Ok(used) => {
                lemma_checks_agree_with_parses(s, pos + used, (count - 1) as nat);
            },
            Err(_) => {},
        }
    }
}

/// A line is found in the first `k` bytes of `s` exactly where it ends
/// within them, and it is the same line then.
proof fn lemma_line_prefix(s: Seq<u8>, pos: int, k: int)
    requires
        0 <= pos,
        0 <= k <= s.len(),
    ensures
        match line_len(s, pos) {
            Some(n) => line_len(s.take(k), pos) == (if pos + n + 2 <= k {
                Some(n)
            } else {
                None
            }),
            None => line_len(s.take(k), pos) is None,
        },
{
    let p = s.take(k);
    lemma_line_len(s, pos);
    lemma_line_len(p, pos);
    assert forall|j: int| crlf_at(p, j) implies crlf_at(s, j) by {
        assert(p[j] == s[j] && p[j + 1] == s[j + 1]);
    }
    assert forall|j: int| crlf_at(s, j) && j + 2 <= k implies crlf_at(p, j) by {
        assert(p[j] == s[j] && p[j + 1] == s[j + 1]);
    }
    match line_len(s, pos) {
        Some(n) => {
            if pos + n + 2 <= k {
                assert(crlf_at(p, pos + n));
                lemma_line_len_found(p, pos, n);
            } else {
                match line_len(p, pos) {
                    Some(m) => {
                        assert(crlf_at(s, pos + m));
                        assert(m >= n);
                    },
                    None => {},
                }
            }
        },
        None => {
            match line_len(p, pos) {
                Some(m) => {
                    assert(crlf_at(s, pos + m));
                },
                None => {},
            }
        },
    }
}

/// A decimal line is read from the first `k` bytes of `s` as it is from
/// all of `s`, where it ends within them; else the bytes end too early.
proof fn lemma_decimal_prefix(s: Seq<u8>, pos: int, k: int)
    requires
        0 <= pos,
        0 <= k <= s.len(),
        decimal_at(s, pos) is Ok,
    ensures
        decimal_at(s.take(k), pos) == (if pos + decimal_at(s, pos)->Ok_0.1 <= k {
            decimal_at(s, pos)
        } else {
            Err(FrameError::Incomplete)
        }),
{
    lemma_line_prefix(s, pos, k);
    let n = line_len(s, pos)->Some_0;
    if pos + n + 2 <= k {
        assert(s.take(k).subrange(pos, pos + n) =~= s.subrange(pos, pos + n));
    }
}

/// Probing the first `k` bytes of `s` finds the frame at `pos` where all
/// of it lies within them, and else that the bytes end too early.
pub proof fn lemma_frame_len_prefix(s: Seq<u8>, pos: int, k: int)
    requires
        0 <= pos,
        0 <= k <= s.len(),
        frame_len(s, pos) is Ok,
    ensures
        frame_len(s.take(k), pos) == (if pos + frame_len(s, pos)->Ok_0 <= k {
            frame_len(s, pos)
        } else {
            Err(FrameError::Incomplete)
        }),
    decreases left(s, pos), 0nat,
{
    let p = s.take(k);
    if pos >= k {
    } else if s[pos] == SIMPLE || s[pos] == ERROR {
        lemma_line_prefix(s, pos + 1, k);
    } else if s[pos] == INTEGER {
        lemma_decimal_prefix(s, pos + 1, k);
    } else if s[pos] == BULK {
        if pos + 1 >= k {
        } else if s[pos + 1] == MINUS {
        } else {
            lemma_decimal_prefix(s, pos + 1, k);
        }
    } else if s[pos] == ARRAY {
        lemma_decimal_prefix(s, pos + 1, k);
        let (count, used) = decimal_at(s, pos + 1)->Ok_0;
        if pos + 1 + used <= k {
            lemma_frames_len_prefix(s, pos + 1 + used, count as nat, k);
        }
    } else {
    }
}

/// Probing the first `k` bytes of `s` finds frames in a row where all of
/// them lie within those bytes, and else that the bytes end too early.
pub proof fn lemma_frames_len_prefix(s: Seq<u8>, pos: int, count: nat, k: int)
    requires
        0 <= pos <= k <= s.len(),
        frames_len(s, pos, count) is Ok,
    ensures
        frames_len(s.take(k), pos, count) == (if pos + frames_len(s, pos, count)->Ok_0 <= k {
            frames_len(s, pos, count)
        } else {
            Err(FrameError::Incomplete)
        }),
    decreases left(s, pos), count + 1,
{
    if count > 0 {
        lemma_frame_len_prefix(s, pos, k);
        let first = frame_len(s, pos)->Ok_0;
        if pos + first <= k {
            lemma_frames_len_prefix(s, pos + first, (count - 1) as nat, k);
        }
    }
}

/// Decoding the first `k` bytes of `s` gives the frame at `pos` where all
/// of it lies within them, and else that the bytes end too early.
pub proof fn lemma_frame_at_prefix(s: Seq<u8>, pos: int, k: int)
    requires
        0 <= pos,
        0 <= k <= s.len(),
        frame_at(s, pos) is Ok,
    ensures
        frame_at(s.take(k), pos) == (if pos + frame_at(s, pos)->Ok_0.1 <= k {
            frame_at(s, pos)
        } else {
            Err(FrameError::Incomplete)
        }),
    decreases left(s, pos), 0nat,
{
    let p = s.take(k);
    if pos >= k {
    } else if s[pos] == SIMPLE || s[pos] == ERROR {
        lemma_line_prefix(s, pos + 1, k);
        let n = line_len(s, pos + 1)->Some_0;
        if pos + 1 + n + 2 <= k {
            assert(p.subrange(pos + 1, pos + 1 + n) =~= s.subrange(pos + 1, pos + 1 + n));
        }
    } else if s[pos] == INTEGER {
        lemma_decimal_prefix(s, pos + 1, k);
    } else if s[pos] == BULK {
        if pos + 1 >= k {
        } else if s[pos + 1] == MINUS {
            lemma_line_prefix(s, pos + 1, k);
            let n = line_len(s, pos + 1)->Some_0;
            if pos + 1 + n + 2 <= k {
                assert(p.subrange(pos + 1, pos + 1 + n) =~= s.subrange(pos + 1, pos + 1 + n));
            }
        } else {
            lemma_decimal_prefix(s, pos + 1, k);
            let (size, used) = decimal_at(s, pos + 1)->Ok_0;
            let body = pos + 1 + used;
            if body + size + 2 <= k {
                assert(p.subrange(body, body + size) =~= s.subrange(body, body + size));
            }
        }
    } else if s[pos] == ARRAY {
        lemma_decimal_prefix(s, pos + 1, k);
        let (count, used) = decimal_at(s, pos + 1)->Ok_0;
        if pos + 1 + used <= k {
            lemma_frames_at_prefix(s, pos + 1 + used, count as nat, k);
        }
    } else {
    }
}

/// Decoding the first `k` bytes of `s` gives frames in a row where all of
/// them lie within those bytes, and else that the bytes end too early.
pub proof fn lemma_frames_at_prefix(s: Seq<u8>, pos: int, count: nat, k: int)
    requires
        0 <= pos <= k <= s.len(),
        frames_at(s, pos, count) is Ok,
    ensures
        frames_at(s.take(k), pos, count) == (if pos + frames_at(s, pos, count)->Ok_0.1 <= k {
            frames_at(s, pos, count)
        } else {
            Err(FrameError::Incomplete)
        }),
    decreases left(s, pos), count + 1,
{
    if count > 0 {
        lemma_frame_at_prefix(s, pos, k);
        let first = frame_at(s, pos)->Ok_0.1;
        if pos + first <= k {
            lemma_frames_at_prefix(s, pos + first, (count - 1) as nat, k);
        }
    }
}

/// A line that is found stays the same line when bytes are appended.
proof fn lemma_line_extended(s: Seq<u8>, pos: int, more: Seq<u8>)
    requires
        0 <= pos,
        line_at(s, pos) is Ok,
    ensures
        line_at(s + more, pos) == line_at(s, pos),
{
    let t = s + more;
    let n = line_len(s, pos)->Some_0;
    lemma_line_len(s, pos);
    assert(crlf_at(t, pos + n)) by {
        assert(t[pos + n] == s[pos + n] && t[pos + n + 1] == s[pos + n + 1]);
    }
    assert forall|j: int| pos <= j < pos + n implies !crlf_at(t, j) by {
        assert(t[j] == s[j] && t[j + 1] == s[j + 1]);
        assert(!crlf_at(s, j));
    }
    lemma_line_len_found(t, pos, n);
    assert(t.subrange(pos, pos + n) =~= s.subrange(pos, pos + n));
}

/// Only an early end can be mended: whatever probing finds, other than
/// that the bytes end too early, it still finds when bytes are appended.
pub proof fn lemma_frame_len_extended(s: Seq<u8>, pos: int, more: Seq<u8>)
    requires
        0 <= pos,
        frame_len(s, pos) != Err::<nat, FrameError>(FrameError::Incomplete),
    ensures
        frame_len(s + more, pos) == frame_len(s, pos),
    decreases left(s, pos), 0nat,
{
    let t = s + more;
    if pos >= s.len() {
    } else {
        assert(t[pos] == s[pos]);
        if s[pos] == SIMPLE || s[pos] == ERROR {
            lemma_line_extended(s, pos + 1, more);
        } else if s[pos] == INTEGER {
            lemma_line_extended(s, pos + 1, more);
        } else if s[pos] == BULK {
            if pos + 1 >= s.len() {
            } else {
                assert(t[pos + 1] == s[pos + 1]);
                if s[pos + 1] == MINUS {
                } else {
                    lemma_line_extended(s, pos + 1, more);
                }
            }
        } else if s[pos] == ARRAY {
            lemma_line_extended(s, pos + 1, more);
            match decimal_at(s, pos + 1) {
                Ok((count, used)) => {
                    lemma_frames_len_extended(s, pos + 1 + used, count as nat, more);
                },
                Err(_) => {},
            }
        } else {
        }
    }
}

/// Whatever probing finds of frames in a row, other than that the bytes
/// end too early, it still finds when bytes are appended.
pub proof fn lemma_frames_len_extended(s: Seq<u8>, pos: int, count: nat, more: Seq<u8>)
    requires
        0 <= pos,
        frames_len(s, pos, count) != Err::<nat, FrameError>(FrameError::Incomplete),
    ensures
        frames_len(s + more, pos, count) == frames_len(s, pos, count),
    decreases left(s, pos), count + 1,
{
    if count > 0 {
        lemma_frame_len_extended(s, pos, more);
        match frame_len(s, pos) {
            Ok(first) => {
                lemma_frames_len_extended(s, pos + first, (count - 1) as nat, more);
            },
            Err(_) => {},
        }
    }
}

/// Whatever decoding gives, other than that the bytes end too early, it
/// still gives when bytes are appended.
pub proof fn lemma_frame_at_extended(s: Seq<u8>, pos: int, more: Seq<u8>)
    requires
        0 <= pos,
        frame_at(s, pos) != Err::<(FrameView, nat), FrameError>(FrameError::Incomplete),
    ensures
        frame_at(s + more, pos) == frame_at(s, pos),
    decreases left(s, pos), 0nat,
{
    let t = s + more;
    if pos >= s.len() {
    } else {
        assert(t[pos] == s[pos]);
        if s[pos] == SIMPLE || s[pos] == ERROR {
            lemma_line_extended(s, pos + 1, more);
        } else if s[pos] == INTEGER {
            lemma_line_extended(s, pos + 1, more);
        } else if s[pos] == BULK {
            if pos + 1 >= s.len() {
            } else {
                assert(t[pos + 1] == s[pos + 1]);
                if s[pos + 1] == MINUS {
                    lemma_line_extended(s, pos + 1, more);
                } else {
                    lemma_line_extended(s, pos + 1, more);
                    match decimal_at(s, pos + 1) {
                        Ok((size, used)) => {
                            let body = pos + 1 + used;
                            if size <= usize::MAX && left(s, body) >= size + 2 {
                                assert(t.subrange(body, body + size) =~= s.subrange(
                                    body,
                                    body + size,
                                ));
                            }
                        },
                        Err(_) => {},
                    }
                }
            }
        } else if s[pos] == ARRAY {
            lemma_line_extended(s, pos + 1, more);
            match decimal_at(s, pos + 1) {
                Ok((count, used)) => {
                    lemma_frames_at_extended(s, pos + 1 + used, count as nat, more);
                },
                Err(_) => {},
            }
        } else {
        }
    }
}

/// Whatever decoding gives of frames in a row, other than that the bytes
/// end too early, it still gives when bytes are appended.
pub proof fn lemma_frames_at_extended(s: Seq<u8>, pos: int, count: nat, more: Seq<u8>)
    requires
        0 <= pos,
        frames_at(s, pos, count) != Err::<(Seq<FrameView>, nat), FrameError>(
            FrameError::Incomplete,
        ),
    ensures
        frames_at(s + more, pos, count) == frames_at(s, pos, count),
    decreases left(s, pos), count + 1,
{
    if count > 0 {
        lemma_frame_at_extended(s, pos, more);
        match frame_at(s, pos) {
            Ok((_, first)) => {
                lemma_frames_at_extended(s, pos + first, (count - 1) as nat, more);
            },
            Err(_) => {},
        }
    }
}

/// Coalesced delivery: where `whole` is one frame and nothing more, a
/// receive buffer that holds it and further bytes behind it gives the
/// frame that `whole` decodes to, and keeps exactly the further bytes.
pub proof fn lemma_coalesced_delivery(whole: Seq<u8>, more: Seq<u8>)
    requires
        frame_at(whole, 0) is Ok,
        frame_at(whole, 0)->Ok_0.1 == whole.len(),
    ensures
        take_frame(whole + more) == (
            Ok::<Option<FrameView>, FrameError>(Some(frame_at(whole, 0)->Ok_0.0)),
            more,
        ),
{
    lemma_check_agrees_with_parse(whole, 0);
    lemma_frame_len_extended(whole, 0, more);
    lemma_frame_at_extended(whole, 0, more);
    let t = whole + more;
    assert(t.subrange(whole.len() as int, t.len() as int) =~= more);
}

/// What is written is read back: a receive buffer that holds the written
/// form of an encodable frame, and further bytes behind it, gives that
/// frame and keeps exactly the further bytes.
pub proof fn lemma_written_frame_is_read(frame: FrameView, more: Seq<u8>)
    requires
        encodable(frame),
    ensures
        take_frame(encode(frame) + more) == (
            Ok::<Option<FrameView>, FrameError>(Some(frame)),
            more,
        ),
{
    lemma_roundtrip(frame);
    lemma_coalesced_delivery(encode(frame), more);
}

/// Partial delivery: where `whole` is one frame and nothing more, a
/// receive buffer that holds only a first part of it gives no frame and
/// stays as it is, so that further parts can join it; once all of `whole`
/// is there, it gives the frame that `whole` decodes to, and is empty.
pub proof fn lemma_partial_delivery(whole: Seq<u8>, k: int)
    requires
        frame_at(whole, 0) is Ok,
        frame_at(whole, 0)->Ok_0.1 == whole.len(),
        0 <= k <= whole.len(),
    ensures
        k < whole.len() ==> take_frame(whole.take(k)) == (
            Ok::<Option<FrameView>, FrameError>(None),
            whole.take(k),
        ),
        take_frame(whole.take(k) + whole.skip(k)) == (
            Ok::<Option<FrameView>, FrameError>(Some(frame_at(whole, 0)->Ok_0.0)),
            Seq::<u8>::empty(),
        ),
{
    lemma_check_agrees_with_parse(whole, 0);
    lemma_frame_len_prefix(whole, 0, k);
    assert(whole.take(k) + whole.skip(k) =~= whole);
    assert(whole.subrange(whole.len() as int, whole.len() as int) =~= Seq::<u8>::empty());
}

} // verus!
