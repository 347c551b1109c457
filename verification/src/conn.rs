//! The two buffers of a connection: the bytes received and not yet
//! decoded, and the bytes encoded and not yet sent.
//!
//! The byte stream itself is the caller's. The caller reads from it and
//! hands the bytes in; it takes the encoded bytes out and sends them.

use bytes::BytesMut;
use vstd::prelude::*;
use crate::buf::{bytes_as_slice, bytes_mut_advance, bytes_mut_as_slice, bytes_mut_seq};
use crate::cursor::Cursor;
use crate::decimal::{decimal_digits, push_decimal};
use crate::frame::{lemma_array_view, views_of, Frame, FrameError, FrameView};
use crate::grammar::{
    crlf, encode, encode_value, encode_values, frame_at, frame_len, is_flat,
    lemma_encode_values_push, ARRAY, BULK, CR, ERROR, INTEGER, LF, MINUS, SIMPLE,
};

verus! {

/// Why reading a frame from a connection failed.
#[derive(Clone, Copy, Debug, PartialEq, Eq, Structural)]
pub enum ReadError {
    /// The bytes received are no frame.
    Frame(FrameError),
    /// The peer closed the stream in the middle of a frame.
    Reset,
}

/// What `read_frame` asks of its caller.
#[derive(Debug)]
pub enum ReadStep {
    /// A frame was decoded: reading is over.
    Frame(Frame),
    /// The peer closed the stream between two frames: reading is over.
    Closed,
    /// Reading failed, and the connection is of no further use.
    Failed(ReadError),
    /// No whole frame is buffered: read from the stream once and call
    /// again with what came.
    Read,
}

/// What one attempt to decode the front of the receive buffer gives, and
/// the bytes that stay buffered after it.
pub open spec fn take_frame(buffered: Seq<u8>) -> (Result<Option<FrameView>, FrameError>, Seq<u8>) {
    match frame_len(buffered, 0) {
        Ok(used) => match frame_at(buffered, 0) {
            Ok((frame, _)) => (Ok(Some(frame)), buffered.subrange(used as int, buffered.len() as int)),
            Err(e) => (Err(e), buffered),
        },
        Err(FrameError::Incomplete) => (Ok(None), buffered),
        Err(e) => (Err(e), buffered),
    }
}

/// The buffers of one connection.
#[derive(Debug)]
pub struct Connection {
    buffer: BytesMut,
    unsent: Vec<u8>,
}

impl Connection {
    /// The bytes received and not yet decoded.
    pub closed spec fn buffered(&self) -> Seq<u8> {
        bytes_mut_seq(self.buffer)
    }

    /// The bytes encoded and not yet taken out.
    pub closed spec fn unsent(&self) -> Seq<u8> {
        self.unsent@
    }

    /// A connection with both buffers empty.
    pub fn new() -> (r: Connection)
        ensures
            r.buffered() == Seq::<u8>::empty(),
            r.unsent() == Seq::<u8>::empty(),
    {
        Connection { buffer: BytesMut::with_capacity(4096), unsent: Vec::new() }
    }

    /// The number of bytes received and not yet decoded.
    pub fn buffered_len(&self) -> (r: usize)
        ensures
            r == self.buffered().len(),
    {
        self.buffer.len()
    }

    /// Tries to decode one frame from the front of the receive buffer. A
    /// decoded frame leaves the buffer; anything else leaves it as it was.
    pub fn parse_frame(&mut self) -> (r: Result<Option<Frame>, FrameError>)
        ensures
            final(self).unsent() == old(self).unsent(),
            final(self).buffered() == take_frame(old(self).buffered()).1,
            match take_frame(old(self).buffered()).0 {
                Ok(Some(frame)) => r is Ok && r->Ok_0 is Some && r->Ok_0->Some_0@ == frame,
                Ok(None) => r is Ok && r->Ok_0 is None,
                Err(e) => r is Err && r->Err_0 == e,
            },
    {
        let mut buf = Cursor::new(bytes_mut_as_slice(&self.buffer));
        match Frame::check(&mut buf) {
            Ok(_) => {
                proof {
                    buf.lemma_pos_in_bounds();
                }
                let len: usize = buf.position();
                buf.set_position(0);
                let frame = match Frame::parse(&mut buf) {
                    Ok(frame) => frame,
                    Err(e) => {
                        return Err(e);
                    },
                };
                bytes_mut_advance(&mut self.buffer, len);
                Ok(Some(frame))
            },
            Err(FrameError::Incomplete) => Ok(None),
            Err(e) => Err(e),
        }
    }

    /// One step of reading a frame. The first call of a read passes
    /// `None`; each later call passes what one read from the stream gave,
    /// which is empty where the peer has closed it.
    pub fn read_frame(&mut self, received: Option<&[u8]>) -> (r: ReadStep)
        requires
            received is Some ==> old(self).buffered().len() + received->Some_0@.len()
                <= isize::MAX,
        ensures
            final(self).unsent() == old(self).unsent(),
            received is Some && received->Some_0@.len() == 0 ==> {
                &&& final(self).buffered() == old(self).buffered()
                &&& old(self).buffered().len() == 0 ==> r is Closed
                &&& old(self).buffered().len() != 0 ==> r == ReadStep::Failed(ReadError::Reset)
            },
            !(received is Some && received->Some_0@.len() == 0) ==> {
                let input = if received is Some {
                    old(self).buffered() + received->Some_0@
                } else {
                    old(self).buffered()
                };
                &&& final(self).buffered() == take_frame(input).1
                &&& match take_frame(input).0 {
                    Ok(Some(frame)) => r is Frame && r->Frame_0@ == frame,
                    Ok(None) => r is Read,
                    Err(e) => r == ReadStep::Failed(ReadError::Frame(e)),
                }
            },
    {
        match received {
            Some(data) => {
                if data.len() == 0 {
                    return if self.buffer.is_empty() {
                        ReadStep::Closed
                    } else {
                        ReadStep::Failed(ReadError::Reset)
                    };
                }
                self.buffer.extend_from_slice(data);
            },
            None => {},
        }
        match self.parse_frame() {
            Ok(Some(frame)) => ReadStep::Frame(frame),
            Ok(None) => ReadStep::Read,
            Err(e) => ReadStep::Failed(ReadError::Frame(e)),
        }
    }

    /// Encodes a frame into the send buffer.
    pub fn write_frame(&mut self, frame: Frame)
        requires
            is_flat(frame@),
        ensures
            final(self).buffered() == old(self).buffered(),
            final(self).unsent() == old(self).unsent() + encode(frame@),
    {
        match frame {
            Frame::Array(items) => {
                proof {
                    lemma_array_view(items);
                }
                self.unsent.push(ARRAY);
                self.write_decimal(items.len() as u64);
                let ghost start = self.unsent@;
                let mut i: usize = 0;
                while i < items.len()
                    invariant
                        i <= items.len(),
                        self.buffered() == old(self).buffered(),
                        is_flat(FrameView::Array(views_of(items@))),
                        self.unsent@ == start + encode_values(views_of(items@).take(i as int)),
                    decreases items.len() - i,
                {
                    proof {
                        let all = views_of(items@);
                        assert(all[i as int] == items@[i as int]@);
                        assert(all.take(i + 1) =~= all.take(i as int).push(all[i as int]));
                        lemma_encode_values_push(all.take(i as int), all[i as int]);
                    }
                    self.write_value(&items[i]);
                    i = i + 1;
                }
                proof {
                    let all = views_of(items@);
                    assert(all.take(items.len() as int) =~= all);
                    assert(self.unsent@ =~= old(self).unsent@ + encode(frame@));
                }
            },
            _ => {
                self.write_value(&frame);
            },
        }
    }

    /// Encodes a frame that is no array into the send buffer.
    pub fn write_value(&mut self, frame: &Frame)
        requires
            !(frame is Array),
        ensures
            final(self).buffered() == old(self).buffered(),
            final(self).unsent() == old(self).unsent() + encode_value(frame@),
    {
        match frame {
            Frame::Simple(val) => {
                self.unsent.push(SIMPLE);
                self.unsent.extend_from_slice(val.as_str().as_bytes());
                self.write_crlf();
            },
            Frame::Error(val) => {
                self.unsent.push(ERROR);
                self.unsent.extend_from_slice(val.as_str().as_bytes());
                self.write_crlf();
            },
            Frame::Integer(val) => {
                self.unsent.push(INTEGER);
                self.write_decimal(*val);
            },
            Frame::Bulk(val) => {
                let len: usize = val.len();
                self.unsent.push(BULK);
                self.write_decimal(len as u64);
                self.unsent.extend_from_slice(bytes_as_slice(val));
                self.write_crlf();
            },
            Frame::Null => {
                self.unsent.push(BULK);
                self.unsent.push(MINUS);
                self.unsent.push(0x31);
                self.write_crlf();
            },
            Frame::Array(_) => {},
        }
        assert(self.unsent@ =~= old(self).unsent@ + encode_value(frame@));
    }

    /// Writes a number in decimal digits, and a line end, into the send
    /// buffer.
    pub fn write_decimal(&mut self, val: u64)
        ensures
            final(self).buffered() == old(self).buffered(),
            final(self).unsent() == old(self).unsent() + decimal_digits(val as nat) + crlf(),
    {
        push_decimal(&mut self.unsent, val);
        self.write_crlf();
        assert(self.unsent@ =~= old(self).unsent@ + decimal_digits(val as nat) + crlf());
    }

    fn write_crlf(&mut self)
        ensures
            final(self).buffered() == old(self).buffered(),
            final(self).unsent() == old(self).unsent() + crlf(),
    {
        self.unsent.push(CR);
        self.unsent.push(LF);
        assert(self.unsent@ =~= old(self).unsent@ + crlf());
    }

    /// Takes the encoded bytes out, to be sent and flushed in one go.
    pub fn take_unsent(&mut self) -> (r: Vec<u8>)
        ensures
            final(self).buffered() == old(self).buffered(),
            final(self).unsent() == Seq::<u8>::empty(),
            r@ == old(self).unsent(),
    {
        let mut out: Vec<u8> = Vec::new();
        core::mem::swap(&mut out, &mut self.unsent);
        out
    }
}

} // verus!
