//! The typed messages of the protocol.

use bytes::Bytes;
use vstd::prelude::*;
use vstd::slice::{slice_subrange, slice_to_vec};
use vstd::utf8::{decode_utf8, valid_utf8};
use crate::buf::bytes_seq;
use crate::cursor::Cursor;
use crate::decimal::{all_digits, atoi_u64};
use crate::grammar::{
    byte_at, decimal_at, frame_at, frame_len, frames_at, frames_len, left, line_at, line_len,
    null_marker, skip_at, ARRAY, BULK, CR, ERROR, INTEGER, LF, MINUS, SIMPLE,
};

verus! {

/// Why a run of bytes is no frame.
#[derive(Clone, Copy, Debug, PartialEq, Eq, Structural)]
pub enum Malformed {
    /// The frame starts with a byte that opens no kind of frame.
    Prefix(u8),
    /// A line that should hold an unsigned decimal number of 64 bits holds
    /// something else.
    Decimal,
    /// A length does not fit the sizes of this machine.
    Length,
    /// A text is not UTF-8.
    Text,
    /// `$-` opens something other than the null frame.
    Null,
}

/// Why no frame came out of the bytes.
#[derive(Clone, Copy, Debug, PartialEq, Eq, Structural)]
pub enum FrameError {
    /// The bytes end before the frame does. More bytes may complete it.
    Incomplete,
    /// The bytes are no frame, and no further bytes will make them one.
    Other(Malformed),
}

/// One message of the protocol.
#[derive(Debug)]
pub enum Frame {
    /// A short text, written behind `+`.
    Simple(String),
    /// A short text that reports an error, written behind `-`.
    Error(String),
    /// An unsigned number of 64 bits, written behind `:`.
    Integer(u64),
    /// Bytes of any kind, written behind `$` and their count.
    Bulk(Bytes),
    /// Nothing, written `$-1`.
    Null,
    /// Frames in order, written behind `*` and their count.
    Array(Vec<Frame>),
}

/// What a `Frame` means, apart from how it is stored.
pub enum FrameView {
    Simple(Seq<char>),
    Error(Seq<char>),
    Integer(u64),
    Bulk(Seq<u8>),
    Null,
    Array(Seq<FrameView>),
}

impl View for Frame {
    type V = FrameView;

    open spec fn view(&self) -> FrameView
        decreases self,
    {
        match self {
            Frame::Simple(text) => FrameView::Simple(text@),
            Frame::Error(text) => FrameView::Error(text@),
            Frame::Integer(value) => FrameView::Integer(*value),
            Frame::Bulk(data) => FrameView::Bulk(bytes_seq(*data)),
            Frame::Null => FrameView::Null,
            Frame::Array(items) => FrameView::Array(
                Seq::new(
                    items@.len(),
                    |i: int|
                        if 0 <= i < items@.len() {
                            items@[i].view()
                        } else {
                            FrameView::Null
                        },
                ),
            ),
        }
    }
}

impl Clone for Frame {
    fn clone(&self) -> (r: Frame)
        ensures
            r@ == self@,
        decreases self,
    {
        match self {
            Frame::Simple(text) => Frame::Simple(text.clone()),
            Frame::Error(text) => Frame::Error(text.clone()),
            Frame::Integer(value) => Frame::Integer(*value),
            Frame::Bulk(data) => Frame::Bulk(data.clone()),
            Frame::Null => Frame::Null,
            Frame::Array(items) => {
                let mut copy: Vec<Frame> = Vec::new();
                let mut i: usize = 0;
                while i < items.len()
                    invariant
                        i <= items.len(),
                        copy.len() == i,
                        *self == Frame::Array(*items),
                        forall|j: int| 0 <= j < i ==> copy@[j]@ == items@[j]@,
                    decreases items.len() - i,
                {
                    proof {
                        // The item is a part of the items, and they of the frame.
                        vstd::std_specs::vec::axiom_vec_index_decreases(*items, i as int);
                        assert(*items == self->Array_0);
                        assert(decreases_to!(*self => self->Array_0));
                    }
                    copy.push(items[i].clone());
                    i = i + 1;
                }
                let r = Frame::Array(copy);
                assert(r@->Array_0 =~= self@->Array_0);
                r
            },
        }
    }
}

/// The views of the frames of `items`, in order.
pub open spec fn views_of(items: Seq<Frame>) -> Seq<FrameView> {
    Seq::new(items.len(), |i: int| items[i]@)
}

/// An array frame means the array of what its items mean.
pub proof fn lemma_array_view(items: Vec<Frame>)
    ensures
        Frame::Array(items)@ == FrameView::Array(views_of(items@)),
{
    reveal_with_fuel(<Frame as View>::view, 2);
    assert(Frame::Array(items)@->Array_0 =~= views_of(items@));
}

/// `String::from_utf8`: the text that `bytes` encode, if they are UTF-8.
#[verifier::external_body]
pub(crate) fn string_from_utf8(bytes: Vec<u8>) -> (r: Option<String>)
    ensures
        match r {
            Some(text) => valid_utf8(bytes@) && text@ == decode_utf8(bytes@),
            None => !valid_utf8(bytes@),
        },
{
    match String::from_utf8(bytes) {
        Ok(text) => Some(text),
        Err(_) => None,
    }
}

/// Reads the next byte and leaves it in place.
pub fn peek_u8(src: &mut Cursor) -> (r: Result<u8, FrameError>)
    ensures
        final(src).bytes() == old(src).bytes(),
        final(src).pos() == old(src).pos(),
        r == byte_at(old(src).bytes(), old(src).pos()),
{
    proof {
        src.lemma_pos_in_bounds();
    }
    if !src.has_remaining() {
        return Err(FrameError::Incomplete);
    }
    let rest = src.chunk();
    Ok(rest[0])
}

/// Reads the next byte and passes over it.
pub fn get_u8(src: &mut Cursor) -> (r: Result<u8, FrameError>)
    ensures
        final(src).bytes() == old(src).bytes(),
        r == byte_at(old(src).bytes(), old(src).pos()),
        final(src).pos() == old(src).pos() + (if r is Ok { 1int } else { 0int }),
{
    proof {
        src.lemma_pos_in_bounds();
    }
    if !src.has_remaining() {
        return Err(FrameError::Incomplete);
    }
    let rest = src.chunk();
    let b: u8 = rest[0];
    src.advance(1);
    Ok(b)
}

/// Passes over `range` bytes, or over none where fewer are left.
pub fn skip(src: &mut Cursor, range: usize) -> (r: Result<(), FrameError>)
    ensures
        final(src).bytes() == old(src).bytes(),
        match skip_at(old(src).bytes(), old(src).pos(), range as nat) {
            Ok(used) => r is Ok && final(src).pos() == old(src).pos() + used,
            Err(e) => r == Err::<(), FrameError>(e) && final(src).pos() == old(src).pos(),
        },
{
    proof {
        src.lemma_pos_in_bounds();
    }
    if src.remaining() < range {
        return Err(FrameError::Incomplete);
    }
    src.advance(range);
    Ok(())
}

/// Reads up to the first line end and passes over both; the line comes
/// back without its end. Where no line end follows, nothing is passed over.
pub fn get_line<'a>(src: &mut Cursor<'a>) -> (r: Result<&'a [u8], FrameError>)
    ensures
        final(src).bytes() == old(src).bytes(),
        match line_at(old(src).bytes(), old(src).pos()) {
            Ok((line, used)) => r is Ok && r->Ok_0@ == line && final(src).pos() == old(src).pos()
                + used,
            Err(e) => r is Err && r->Err_0 == e && final(src).pos() == old(src).pos(),
        },
{
    proof {
        src.lemma_pos_in_bounds();
    }
    let buf = src.get_ref();
    let start: usize = src.position();
    let end: usize = buf.len();
    let mut i: usize = start;
    while end - i >= 2
        invariant
            start <= i <= end,
            end == buf@.len(),
            buf@ == old(src).bytes(),
            src.bytes() == old(src).bytes(),
            src.pos() == old(src).pos(),
            start == old(src).pos(),
            line_len(buf@, start as int) == (match line_len(buf@, i as int) {
                Some(n) => Some((n + (i - start)) as nat),
                None => None,
            }),
        decreases end - i,
    {
        if buf[i] == CR && buf[i + 1] == LF {
            src.set_position(i + 2);
            return Ok(slice_subrange(buf, start, i));
        }
        i = i + 1;
    }
    Err(FrameError::Incomplete)
}

/// Reads a line that holds an unsigned decimal number of 64 bits. The line
/// is passed over whether or not it holds one.
pub fn get_decimal(src: &mut Cursor) -> (r: Result<u64, FrameError>)
    ensures
        final(src).bytes() == old(src).bytes(),
        match decimal_at(old(src).bytes(), old(src).pos()) {
            Ok((value, used)) => r == Ok::<u64, FrameError>(value),
            Err(e) => r == Err::<u64, FrameError>(e),
        },
        match line_at(old(src).bytes(), old(src).pos()) {
            Ok((line, used)) => final(src).pos() == old(src).pos() + used,
            Err(e) => final(src).pos() == old(src).pos(),
        },
{
    let line = match get_line(src) {
        Ok(line) => line,
        Err(e) => {
            return Err(e);
        },
    };
    if !all_digits(line) {
        return Err(FrameError::Other(Malformed::Decimal));
    }
    match atoi_u64(line) {
        Some(value) => Ok(value),
        None => Err(FrameError::Other(Malformed::Decimal)),
    }
}

impl Frame {
    /// An array frame without items.
    pub fn array() -> (r: Frame)
        ensures
            r@ == FrameView::Array(Seq::empty()),
    {
        let r = Frame::Array(Vec::new());
        assert(r@->Array_0 =~= Seq::empty());
        r
    }

    /// Appends a bulk frame that holds `bytes` to an array frame.
    pub fn push_bulk(&mut self, bytes: Bytes)
        requires
            *old(self) is Array,
        ensures
            final(self)@ == FrameView::Array(
                old(self)@->Array_0.push(FrameView::Bulk(bytes_seq(bytes))),
            ),
    {
        match self {
            Frame::Array(items) => {
                proof {
                    lemma_array_view(*items);
                }
                items.push(Frame::Bulk(bytes));
                proof {
                    lemma_array_view(*items);
                    assert(views_of(items@) =~= views_of((*old(self))->Array_0@).push(
                        FrameView::Bulk(bytes_seq(bytes)),
                    ));
                }
            },
            _ => {},
        }
    }

    /// Appends an integer frame that holds `value` to an array frame.
    pub fn push_int(&mut self, value: u64)
        requires
            *old(self) is Array,
        ensures
            final(self)@ == FrameView::Array(old(self)@->Array_0.push(FrameView::Integer(value))),
    {
        match self {
            Frame::Array(items) => {
                proof {
                    lemma_array_view(*items);
                }
                items.push(Frame::Integer(value));
                proof {
                    lemma_array_view(*items);
                    assert(views_of(items@) =~= views_of((*old(self))->Array_0@).push(
                        FrameView::Integer(value),
                    ));
                }
            },
            _ => {},
        }
    }

    /// Finds out whether a whole frame starts at the cursor, without
    /// decoding it. On success the cursor stands behind the frame; on
    /// failure it stands where it stood.
    pub fn check(src: &mut Cursor) -> (r: Result<(), FrameError>)
        ensures
            final(src).bytes() == old(src).bytes(),
            match frame_len(old(src).bytes(), old(src).pos()) {
                Ok(used) => r is Ok && final(src).pos() == old(src).pos() + used,
                Err(e) => r == Err::<(), FrameError>(e) && final(src).pos() == old(src).pos(),
            },
        decreases left(old(src).bytes(), old(src).pos()), 1nat,
    {
        proof {
            src.lemma_pos_in_bounds();
        }
        let start: usize = src.position();
        let r = Frame::probe(src);
        if r.is_err() {
            src.set_position(start);
        }
        r
    }

    /// The walk of `check`, which leaves the cursor where a failure stopped
    /// it.
    fn probe(src: &mut Cursor) -> (r: Result<(), FrameError>)
        ensures
            final(src).bytes() == old(src).bytes(),
            match frame_len(old(src).bytes(), old(src).pos()) {
                Ok(used) => r is Ok && final(src).pos() == old(src).pos() + used,
                Err(e) => r == Err::<(), FrameError>(e),
            },
        decreases left(old(src).bytes(), old(src).pos()), 0nat,
    {
        let ghost s = src.bytes();
        let ghost start = src.pos();
        proof {
            src.lemma_pos_in_bounds();
        }
        let first: u8 = match get_u8(src) {
            Ok(b) => b,
            Err(e) => {
                return Err(e);
            },
        };
        if first == SIMPLE || first == ERROR {
            match get_line(src) {
                Ok(_) => Ok(()),
                Err(e) => Err(e),
            }
        } else if first == INTEGER {
            match get_decimal(src) {
                Ok(_) => Ok(()),
                Err(e) => Err(e),
            }
        } else if first == BULK {
            let next: u8 = match peek_u8(src) {
                Ok(b) => b,
                Err(e) => {
                    return Err(e);
                },
            };
            if next == MINUS {
                skip(src, 4)
            } else {
                let size: u64 = match get_decimal(src) {
                    Ok(n) => n,
                    Err(e) => {
                        return Err(e);
                    },
                };
                if size > usize::MAX as u64 {
                    return Err(FrameError::Other(Malformed::Length));
                }
                match (size as usize).checked_add(2) {
                    Some(total) => skip(src, total),
                    None => {
                        let rest: usize = src.remaining();
                        assert(left(s, src.pos()) == rest);
                        Err(FrameError::Incomplete)
                    },
                }
            }
        } else if first == ARRAY {
            let count: u64 = match get_decimal(src) {
                Ok(n) => n,
                Err(e) => {
                    return Err(e);
                },
            };
            let ghost body = src.pos();
            let mut done: u64 = 0;
            while done < count
                invariant
                    src.bytes() == s,
                    s == old(src).bytes(),
                    start == old(src).pos(),
                    0 <= start < s.len(),
                    start < body <= src.pos(),
                    done <= count,
                    frame_len(s, start) == (match frames_len(s, body, count as nat) {
                        Ok(n) => Ok((body - start + n) as nat),
                        Err(e) => Err(e),
                    }),
                    frames_len(s, body, count as nat) == (match frames_len(
                        s,
                        src.pos(),
                        (count - done) as nat,
                    ) {
                        Ok(n) => Ok((src.pos() - body + n) as nat),
                        Err(e) => Err(e),
                    }),
                decreases count - done,
            {
                proof {
                    src.lemma_pos_in_bounds();
                }
                match Frame::check(src) {
                    Ok(_) => {},
                    Err(e) => {
                        return Err(e);
                    },
                }
                done = done + 1;
            }
            Ok(())
        } else {
            Err(FrameError::Other(Malformed::Prefix(first)))
        }
    }

    /// Decodes the frame that starts at the cursor. On success the cursor
    /// stands behind the frame; on failure it stands where it stood.
    pub fn parse(src: &mut Cursor) -> (r: Result<Frame, FrameError>)
        ensures
            final(src).bytes() == old(src).bytes(),
            match frame_at(old(src).bytes(), old(src).pos()) {
                Ok((frame, used)) => r is Ok && r->Ok_0@ == frame && final(src).pos() == old(
                    src,
                ).pos() + used,
                Err(e) => r is Err && r->Err_0 == e && final(src).pos() == old(src).pos(),
            },
        decreases left(old(src).bytes(), old(src).pos()), 1nat,
    {
        proof {
            src.lemma_pos_in_bounds();
        }
        let start: usize = src.position();
        let r = Frame::decode(src);
        if r.is_err() {
            src.set_position(start);
        }
        r
    }

    /// The walk of `parse`, which leaves the cursor where a failure stopped
    /// it.
    fn decode(src: &mut Cursor) -> (r: Result<Frame, FrameError>)
        ensures
            final(src).bytes() == old(src).bytes(),
            match frame_at(old(src).bytes(), old(src).pos()) {
                Ok((frame, used)) => r is Ok && r->Ok_0@ == frame && final(src).pos() == old(
                    src,
                ).pos() + used,
                Err(e) => r is Err && r->Err_0 == e,
            },
        decreases left(old(src).bytes(), old(src).pos()), 0nat,
    {
        let ghost s = src.bytes();
        let ghost start = src.pos();
        proof {
            src.lemma_pos_in_bounds();
        }
        let first: u8 = match get_u8(src) {
            Ok(b) => b,
            Err(e) => {
                return Err(e);
            },
        };
        if first == SIMPLE || first == ERROR {
            let line = match get_line(src) {
                Ok(line) => line,
                Err(e) => {
                    return Err(e);
                },
            };
            match string_from_utf8(slice_to_vec(line)) {
                Some(text) => if first == SIMPLE {
                    Ok(Frame::Simple(text))
                } else {
                    Ok(Frame::Error(text))
                },
                None => Err(FrameError::Other(Malformed::Text)),
            }
        } else if first == INTEGER {
            match get_decimal(src) {
                Ok(value) => Ok(Frame::Integer(value)),
                Err(e) => Err(e),
            }
        } else if first == BULK {
            let next: u8 = match peek_u8(src) {
                Ok(b) => b,
                Err(e) => {
                    return Err(e);
                },
            };
            if next == MINUS {
                let line = match get_line(src) {
                    Ok(line) => line,
                    Err(e) => {
                        return Err(e);
                    },
                };
                if line.len() == 2 && line[0] == MINUS && line[1] == 0x31 {
                    assert(line@ =~= null_marker());
                    Ok(Frame::Null)
                } else {
                    Err(FrameError::Other(Malformed::Null))
                }
            } else {
                let size: u64 = match get_decimal(src) {
                    Ok(n) => n,
                    Err(e) => {
                        return Err(e);
                    },
                };
                if size > usize::MAX as u64 {
                    return Err(FrameError::Other(Malformed::Length));
                }
                let size: usize = size as usize;
                let rest = src.chunk();
                if rest.len() < 2 || rest.len() - 2 < size {
                    return Err(FrameError::Incomplete);
                }
                let data = Bytes::copy_from_slice(slice_subrange(rest, 0, size));
                proof {
                    src.lemma_pos_in_bounds();
                    assert(rest@.subrange(0, size as int) =~= s.subrange(
                        src.pos(),
                        src.pos() + size,
                    ));
                }
                match skip(src, size + 2) {
                    Ok(_) => Ok(Frame::Bulk(data)),
                    Err(e) => Err(e),
                }
            }
        } else if first == ARRAY {
            let count: u64 = match get_decimal(src) {
                Ok(n) => n,
                Err(e) => {
                    return Err(e);
                },
            };
            let ghost body = src.pos();
            let mut items: Vec<Frame> = Vec::new();
            let mut done: u64 = 0;
            while done < count
                invariant
                    src.bytes() == s,
                    s == old(src).bytes(),
                    start == old(src).pos(),
                    0 <= start < s.len(),
                    start < body <= src.pos(),
                    done <= count,
                    frame_at(s, start) == (match frames_at(s, body, count as nat) {
                        Ok((all, n)) => Ok((FrameView::Array(all), (body - start + n) as nat)),
                        Err(e) => Err(e),
                    }),
                    frames_at(s, body, count as nat) == (match frames_at(
                        s,
                        src.pos(),
                        (count - done) as nat,
                    ) {
                        Ok((others, n)) => Ok(
                            (views_of(items@) + others, (src.pos() - body + n) as nat),
                        ),
                        Err(e) => Err(e),
                    }),
                decreases count - done,
            {
                proof {
                    src.lemma_pos_in_bounds();
                }
                let ghost before = items@;
                let ghost at = src.pos();
                let item = match Frame::parse(src) {
                    Ok(item) => item,
                    Err(e) => {
                        return Err(e);
                    },
                };
                items.push(item);
                done = done + 1;
                proof {
                    match frames_at(s, src.pos(), (count - done) as nat) {
                        Ok((others, n)) => {
                            assert(views_of(before) + (seq![item@] + others) =~= views_of(items@)
                                + others);
                        },
                        Err(e) => {},
                    }
                }
            }
            proof {
                lemma_array_view(items);
                assert(views_of(items@) + Seq::<FrameView>::empty() =~= views_of(items@));
            }
            Ok(Frame::Array(items))
        } else {
            Err(FrameError::Other(Malformed::Prefix(first)))
        }
    }
}

} // verus!
