//! The ways in which parsing can fail.
use httparse::Error as HttparseError;
use vstd::prelude::*;

verus! {

/// The error type of `httparse`, carried through as it is.
#[verifier::external_type_specification]
#[verifier::external_body]
pub struct ExHttparseError(HttparseError);

/// Errors that can occur during multipart parsing. `E` is the error of the
/// byte stream that the parser reads from.
#[derive(Debug)]
pub enum Error<E> {
    /// The stream terminated before reaching the end of the current part.
    ///
    /// This occurs when the underlying stream ends unexpectedly without a
    /// boundary marker having been met.
    EarlyTerminate,
    /// An error occurred while reading from the underlying stream.
    StreamError(E),
    /// An error occurred during parsing of multipart data.
    ParseError(ParseError),
    /// The next part was asked for before the body of the previous one had been
    /// read until there was no more of it.
    BodyNotConsumed,
}

/// Errors that can occur during multipart header parsing.
#[derive(Debug)]
pub enum ParseError {
    /// An error from the underlying `httparse` crate.
    Other(HttparseError),
    /// A search of the buffer made no progress. Every search moves forward, so
    /// the parser never has cause to report this.
    BufferNoChange,
    /// Header data is incomplete: more of it would be needed.
    TryParsePartial,
}

} // verus!
