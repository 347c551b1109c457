//! Comparing a frame with a text.

use vstd::prelude::*;
use vstd::std_specs::cmp::PartialEqSpecImpl;
use vstd::string::StringSliceAdditionalSpecFns;
use crate::buf::{bytes_as_slice, bytes_seq};
use crate::frame::Frame;

verus! {

/// Whether two slices hold the same bytes.
pub fn same_bytes(a: &[u8], b: &[u8]) -> (r: bool)
    ensures
        r == (a@ == b@),
{
    if a.len() != b.len() {
        return false;
    }
    let mut i: usize = 0;
    while i < a.len()
        invariant
            i <= a.len(),
            a@.len() == b@.len(),
            forall|j: int| 0 <= j < i ==> a@[j] == b@[j],
        decreases a.len() - i,
    {
        if a[i] != b[i] {
            return false;
        }
        i = i + 1;
    }
    assert(a@ =~= b@);
    true
}

impl PartialEq<&str> for Frame {
    /// A simple string equals the text that it holds, and a bulk string
    /// the text whose UTF-8 bytes it holds. No other frame equals a text.
    fn eq(&self, other: &&str) -> (r: bool) {
        match self {
            Frame::Simple(text) => {
                proof {
                    lemma_same_text(text@, other@);
                }
                same_bytes(text.as_str().as_bytes(), other.as_bytes())
            },
            Frame::Bulk(data) => same_bytes(bytes_as_slice(data), other.as_bytes()),
            _ => false,
        }
    }
}

impl PartialEqSpecImpl<&str> for Frame {
    open spec fn obeys_eq_spec() -> bool {
        true
    }

    open spec fn eq_spec(&self, other: &&str) -> bool {
        match self {
            Frame::Simple(text) => text@ == other@,
            Frame::Bulk(data) => bytes_seq(*data) == other.spec_bytes(),
            _ => false,
        }
    }
}

/// Two texts are the same exactly where their UTF-8 bytes are.
proof fn lemma_same_text(a: Seq<char>, b: Seq<char>)
    ensures
        (vstd::utf8::encode_utf8(a) == vstd::utf8::encode_utf8(b)) <==> a == b,
{
    vstd::utf8::encode_utf8_decode_utf8(a);
    vstd::utf8::encode_utf8_decode_utf8(b);
}

} // verus!
