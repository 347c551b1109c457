//! Commands: what a peer asks for, and the answer to it.
//!
//! Reading a command out of a frame is left to the caller. This module
//! holds what follows: looking the key up and making the answer.

use bytes::Bytes;
use dashmap::DashMap;
use vstd::prelude::*;
use crate::buf::bytes_seq;
use crate::frame::{Frame, FrameView};

verus! {

/// `dashmap::DashMap`, a map that many tasks may read and change at once.
#[verifier::external_type_specification]
#[verifier::external_body]
#[verifier::reject_recursive_types(K)]
#[verifier::reject_recursive_types(V)]
#[verifier::reject_recursive_types(S)]
pub struct ExDashMap<K, V, S>(DashMap<K, V, S>);

/// A command, as far as this library tells commands apart.
#[derive(Debug)]
pub enum Command {
    /// Fetch the value that the store holds under this key.
    Get(String),
    /// Any other command. None of them is carried out.
    Unsupported,
}

/// `DashMap::get`: the value that the store holds under `key` when the
/// call is made, cloned out of it, or `None` where it holds none. Other
/// tasks may change the store at any time, so nothing is stated of what
/// comes back.
#[verifier::external_body]
fn lookup(db: &DashMap<String, Bytes>, key: &String) -> Option<Bytes> {
    match db.get(key) {
        Some(entry) => Some(entry.value().clone()),
        None => None,
    }
}

/// The answer to a `Get`, given what the store holds under its key: the
/// value as a bulk string, or the null frame where the key is absent.
pub fn get_reply(found: Option<Bytes>) -> (r: Frame)
    ensures
        r@ == (match found {
            Some(value) => FrameView::Bulk(bytes_seq(value)),
            None => FrameView::Null,
        }),
{
    match found {
        Some(value) => Frame::Bulk(value),
        None => Frame::Null,
    }
}

/// Carries out a command against the store and gives the answer to send.
/// A command that is not carried out has no answer.
pub fn execute(command: &Command, db: &DashMap<String, Bytes>) -> (r: Option<Frame>)
    ensures
        match command {
            Command::Get(_) => r is Some && (r->Some_0@ is Bulk || r->Some_0@ is Null),
            Command::Unsupported => r is None,
        },
{
    match command {
        Command::Get(key) => Some(get_reply(lookup(db, key))),
        Command::Unsupported => None,
    }
}

} // verus!
