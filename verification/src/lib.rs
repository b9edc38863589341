//! A streaming parser for multipart messages.
//!
//! A multipart message is a sequence of parts between boundary lines, each
//! with headers and a body. The parser yields the parts while the bytes of the
//! message arrive, without holding the whole of it, and streams each body in
//! pieces.
//!
//! The body of a part has to be read until there is no more of it before the
//! next part can be had; to ask for it earlier is answered with
//! [`Error::BodyNotConsumed`].
//!
//! - [`stream`] holds the types that a caller works with, [`parser`] the state
//!   machine behind them, which can also be driven directly, and [`source`] the
//!   queue that a stream's chunks are read from.
//! - [`headers`] parses header blocks, [`search`] finds boundaries, and
//!   [`buffer`] holds the bytes.
//! - [`model`] says what the parser does as functions on mathematical values,
//!   [`document`] what a message says when its bytes are taken as a whole.
//! - [`reading`], [`laws`] and [`conduct`] relate the two: what is read through
//!   the parser is what the message says. [`memory`] bounds what is held.
//! - [`answers`] says what each answer of the parser tells of the bytes and of
//!   the stream, whatever the stream brings, and [`meaning`] what the words of
//!   the contracts mean, byte by byte.
//! - [`whole`] reads a message to its end, [`samples`] and [`cases`] make
//!   messages up to try the parser on.
use vstd::prelude::*;

pub mod answers;
pub mod buffer;
pub mod cases;
pub mod conduct;
pub mod document;
pub mod error;
pub mod headers;
pub mod laws;
pub mod meaning;
pub mod memory;
pub mod model;
pub mod parser;
pub mod reading;
pub mod samples;
pub mod search;
pub mod source;
pub mod stream;
pub mod whole;

pub use crate::error::{Error, ParseError};
pub use crate::parser::Parser;
pub use crate::source::{create_stream_from_chunks, ChunkSource, Incoming, Poll};
pub use crate::stream::{Body, MultipartStream, Part};
pub use http::header;

verus! {

} // verus!
