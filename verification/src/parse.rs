//! A forward-only tokenizer over the items of one array frame, for
//! commands to take their fields from.

use vstd::prelude::*;
use vstd::slice::slice_to_vec;
use vstd::utf8::{decode_utf8, valid_utf8};
use crate::buf::bytes_as_slice;
use crate::frame::{lemma_array_view, string_from_utf8, views_of, Frame, FrameView};

verus! {

/// Why a frame gave no token.
#[derive(Clone, Copy, Debug, PartialEq, Eq, Structural)]
pub enum Mismatch {
    /// The frame to tokenize is no array.
    NotArray,
    /// The item is neither a simple string nor a bulk string.
    NotText,
    /// The bytes of a bulk string are not UTF-8.
    InvalidText,
}

/// Why no token came.
#[derive(Clone, Copy, Debug, PartialEq, Eq, Structural)]
pub enum ParseError {
    /// Every item has been taken.
    EndOfStream,
    /// The frame, or the next item, is not what was asked for.
    Other(Mismatch),
}

/// The text that an item stands for: that of a simple string, or the one
/// that the bytes of a bulk string encode.
pub open spec fn text_of(frame: FrameView) -> Result<Seq<char>, ParseError> {
    match frame {
        FrameView::Simple(text) => Ok(text),
        FrameView::Bulk(data) => if valid_utf8(data) {
            Ok(decode_utf8(data))
        } else {
            Err(ParseError::Other(Mismatch::InvalidText))
        },
        _ => Err(ParseError::Other(Mismatch::NotText)),
    }
}

/// The items of an array frame that have not been taken yet.
#[derive(Debug)]
pub struct Parse {
    // The items still to come, the next one last.
    parts: Vec<Frame>,
}

impl Parse {
    /// The items still to come, the next one first.
    pub closed spec fn rest(&self) -> Seq<FrameView> {
        views_of(self.parts@.reverse())
    }

    /// A tokenizer over the items of `frame`, which has to be an array.
    pub fn new(frame: Frame) -> (r: Result<Parse, ParseError>)
        ensures
            match frame@ {
                FrameView::Array(items) => r is Ok && r->Ok_0.rest() == items,
                _ => r is Err && r->Err_0 == ParseError::Other(Mismatch::NotArray),
            },
    {
        let mut array = match frame {
            Frame::Array(array) => array,
            _ => {
                return Err(ParseError::Other(Mismatch::NotArray));
            },
        };
        proof {
            lemma_array_view(array);
        }
        let ghost all = array@;
        let mut parts: Vec<Frame> = Vec::new();
        while array.len() > 0
            invariant
                array@ == all.take(array@.len() as int),
                array@.len() <= all.len(),
                parts@ == all.skip(array@.len() as int).reverse(),
            decreases array.len(),
        {
            let ghost before = array@;
            let item = array.pop().unwrap();
            proof {
                let n = array@.len() as int;
                assert(array@ =~= all.take(n));
                assert(item == all[n]);
                assert(all.skip(n).reverse() =~= all.skip(n + 1).reverse().push(all[n]));
            }
            parts.push(item);
        }
        proof {
            assert(all.skip(0) =~= all);
            assert(parts@.reverse() =~= all);
        }
        Ok(Parse { parts })
    }

    /// Takes the next item.
    pub fn next(&mut self) -> (r: Result<Frame, ParseError>)
        ensures
            old(self).rest().len() == 0 ==> r is Err && r->Err_0 == ParseError::EndOfStream
                && final(self).rest() == old(self).rest(),
            old(self).rest().len() > 0 ==> r is Ok && r->Ok_0@ == old(self).rest().first()
                && final(self).rest() == old(self).rest().drop_first(),
    {
        let ghost before = self.parts@;
        match self.parts.pop() {
            Some(item) => {
                proof {
                    assert(views_of(self.parts@.reverse()) =~= views_of(
                        before.reverse(),
                    ).drop_first());
                }
                Ok(item)
            },
            None => Err(ParseError::EndOfStream),
        }
    }

    /// Takes the next item as a text.
    pub fn next_string(&mut self) -> (r: Result<String, ParseError>)
        ensures
            old(self).rest().len() == 0 ==> r is Err && r->Err_0 == ParseError::EndOfStream
                && final(self).rest() == old(self).rest(),
            old(self).rest().len() > 0 ==> final(self).rest() == old(self).rest().drop_first()
                && match text_of(old(self).rest().first()) {
                Ok(text) => r is Ok && r->Ok_0@ == text,
                Err(e) => r is Err && r->Err_0 == e,
            },
    {
        let item = match self.next() {
            Ok(item) => item,
            Err(e) => {
                return Err(e);
            },
        };
        match item {
            Frame::Simple(text) => Ok(text),
            Frame::Bulk(data) => {
                match string_from_utf8(slice_to_vec(bytes_as_slice(&data))) {
                    Some(text) => Ok(text),
                    None => Err(ParseError::Other(Mismatch::InvalidText)),
                }
            },
            _ => Err(ParseError::Other(Mismatch::NotText)),
        }
    }
}

} // verus!
