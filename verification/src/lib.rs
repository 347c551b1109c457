//! A small text-based request/response wire protocol over a byte stream:
//! a frame codec, the buffers of a connection, and a tokenizer for commands.

pub mod buf;
pub mod cmd;
pub mod conn;
pub mod cursor;
pub mod decimal;
pub mod frame;
pub mod grammar;
pub mod laws;
pub mod parse;
pub mod text;
pub mod text_eq;
