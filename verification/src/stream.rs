//! A multipart message that is parsed while its bytes arrive.
use bytes::Bytes;
use http::HeaderMap;
use vstd::prelude::*;

use crate::buffer::bytes_content;
use crate::error::Error;
use crate::headers::fields_of;
use crate::model::{lemma_body_step, lemma_part_step, BodyReply, Core, Model, PartReply, Step};
use crate::parser::Parser;
use crate::source::{ChunkSource, Incoming, Poll};

verus! {

/// A streaming multipart parser.
///
/// It yields the parts of a message one after the other, each with its headers
/// and its body. The body of a part is streamed in pieces as they arrive, and
/// has to be read to its end before the next part can be had.
pub struct MultipartStream<E> {
    rx: ChunkSource<E>,
    parser: Parser,
}

impl<E> View for MultipartStream<E> {
    type V = Model<E>;

    closed spec fn view(&self) -> Model<E> {
        Model { core: self.parser@, feed: self.rx@ }
    }
}

/// The answer for a part with its headers as fields.
pub open spec fn headers_poll_view<E>(r: Poll<Option<Result<HeaderMap, Error<E>>>>) -> Poll<
    PartReply<E>,
> {
    match r {
        Poll::Ready(None) => Poll::Ready(None),
        Poll::Ready(Some(Ok(map))) => Poll::Ready(Some(Ok(fields_of(map)))),
        Poll::Ready(Some(Err(e))) => Poll::Ready(Some(Err(e))),
        Poll::Pending => Poll::Pending,
    }
}

/// The answer for a part with the part's headers as fields.
pub open spec fn part_poll_view<'a, E>(r: Poll<Option<Result<Part<'a, E>, Error<E>>>>) -> Poll<
    PartReply<E>,
> {
    match r {
        Poll::Ready(None) => Poll::Ready(None),
        Poll::Ready(Some(Ok(part))) => Poll::Ready(Some(Ok(fields_of(part.headers)))),
        Poll::Ready(Some(Err(e))) => Poll::Ready(Some(Err(e))),
        Poll::Pending => Poll::Pending,
    }
}

/// The answer for a piece of the body with its bytes.
pub open spec fn chunk_poll_view<E>(r: Poll<Option<Result<Bytes, Error<E>>>>) -> Poll<
    BodyReply<E>,
> {
    match r {
        Poll::Ready(None) => Poll::Ready(None),
        Poll::Ready(Some(Ok(chunk))) => Poll::Ready(Some(Ok(bytes_content(chunk)))),
        Poll::Ready(Some(Err(e))) => Poll::Ready(Some(Err(e))),
        Poll::Pending => Poll::Pending,
    }
}

impl<E> MultipartStream<E> {
    /// The parser is in one of its states, and the bytes that it holds or that
    /// wait for it can be counted.
    pub closed spec fn wf(&self) -> bool {
        &&& self.parser.wf()
        &&& self@.data().len() <= usize::MAX
    }

    /// Creates a parser that reads from `stream`. The boundary is given without
    /// the leading hyphens.
    pub fn new(stream: ChunkSource<E>, boundary: &[u8]) -> (multipart: Self)
        requires
            stream@.data().len() <= usize::MAX,
        ensures
            multipart.wf(),
            multipart@.core == Core::start(boundary@),
            multipart@.feed == stream@,
    {
        MultipartStream { rx: stream, parser: Parser::new(boundary) }
    }

    /// Queues what has arrived in the meantime.
    pub fn push(&mut self, item: Incoming<E>)
        requires
            old(self).wf(),
            item matches Incoming::Chunk(bytes) ==> old(self)@.data().len() + bytes_content(
                bytes,
            ).len() <= usize::MAX,
        ensures
            final(self).wf(),
            final(self)@.core == old(self)@.core,
            final(self)@.feed.items == old(self)@.feed.items.push(item@),
            final(self)@.feed.closed == old(self)@.feed.closed,
    {
        self.rx.push(item);
    }

    /// Polls for the headers of the next part.
    pub(crate) fn poll_headers(&mut self) -> (r: Poll<Option<Result<HeaderMap, Error<E>>>>)
        requires
            old(self).wf(),
        ensures
            final(self).wf(),
            (headers_poll_view(r), final(self)@) == old(self)@.poll_part(),
            match (r, old(self)@.poll_part().0) {
                (Poll::Ready(Some(Ok(map))), Poll::Ready(Some(Ok(fields)))) => fields_of(map)
                    == fields,
                (Poll::Ready(Some(Err(e))), Poll::Ready(Some(Err(error)))) => e == error,
                (Poll::Ready(None), Poll::Ready(None)) => true,
                (Poll::Pending, Poll::Pending) => true,
                _ => false,
            },
    {
        loop
            invariant
                self.wf(),
                self@.poll_part() == old(self)@.poll_part(),
            decreases
                self@.feed.items.len(),
                (if self@.core.terminated {
                    0int
                } else {
                    1
                }),
        {
            proof {
                lemma_part_step::<E>(self@.core);
            }
            match self.parser.part_step() {
                Step::Return(reply) => {
                    return Poll::Ready(reply);
                },
                Step::Await => {},
            }
            match self.rx.poll_next() {
                Poll::Pending => {
                    return Poll::Pending;
                },
                Poll::Ready(item) => match self.parser.receive(item) {
                    Some(failure) => {
                        return Poll::Ready(Some(Err(failure)));
                    },
                    None => {},
                },
            }
        }
    }

    /// Polls for the next part. There is none behind the last boundary; to ask
    /// before the body of the previous part was read to its end is an error.
    pub fn poll_next_part(&mut self) -> (r: Poll<Option<Result<Part<'_, E>, Error<E>>>>)
        requires
            old(self).wf(),
        ensures
            part_poll_view(r) == old(self)@.poll_part().0,
            match (r, old(self)@.poll_part().0) {
                (Poll::Ready(Some(Ok(part))), Poll::Ready(Some(Ok(fields)))) => fields_of(
                    part.headers,
                ) == fields,
                (Poll::Ready(Some(Err(e))), Poll::Ready(Some(Err(error)))) => e == error,
                (Poll::Ready(None), Poll::Ready(None)) => true,
                (Poll::Pending, Poll::Pending) => true,
                _ => false,
            },
            match r {
                Poll::Ready(Some(Ok(part))) => {
                    &&& part.body.wf()
                    &&& part.body@ == old(self)@.poll_part().1
                    &&& *final(self) == *final(part.body)
                },
                _ => {
                    &&& final(self).wf()
                    &&& final(self)@ == old(self)@.poll_part().1
                },
            },
    {
        match self.poll_headers() {
            Poll::Ready(Some(Ok(headers))) => Poll::Ready(Some(Ok(Part::new(self, headers)))),
            Poll::Ready(Some(Err(e))) => Poll::Ready(Some(Err(e))),
            Poll::Ready(None) => Poll::Ready(None),
            Poll::Pending => Poll::Pending,
        }
    }

    /// Polls for the next piece of the body. There is none when no body is
    /// being streamed.
    pub fn poll_next_body_chunk(&mut self) -> (r: Poll<Option<Result<Bytes, Error<E>>>>)
        requires
            old(self).wf(),
        ensures
            final(self).wf(),
            (chunk_poll_view(r), final(self)@) == old(self)@.poll_body(),
            match (r, old(self)@.poll_body().0) {
                (Poll::Ready(Some(Ok(chunk))), Poll::Ready(Some(Ok(bytes)))) => bytes_content(chunk)
                    == bytes,
                (Poll::Ready(Some(Err(e))), Poll::Ready(Some(Err(error)))) => e == error,
                (Poll::Ready(None), Poll::Ready(None)) => true,
                (Poll::Pending, Poll::Pending) => true,
                _ => false,
            },
    {
        loop
            invariant
                self.wf(),
                self@.poll_body() == old(self)@.poll_body(),
            decreases
                self@.feed.items.len(),
                (if self@.core.terminated {
                    0int
                } else {
                    1
                }),
        {
            proof {
                lemma_body_step::<E>(self@.core);
            }
            match self.parser.body_step() {
                Step::Return(reply) => {
                    return Poll::Ready(reply);
                },
                Step::Await => {},
            }
            match self.rx.poll_next() {
                Poll::Pending => {
                    return Poll::Pending;
                },
                Poll::Ready(item) => match self.parser.receive(item) {
                    Some(failure) => {
                        return Poll::Ready(Some(Err(failure)));
                    },
                    None => {},
                },
            }
        }
    }
}

/// A single part of a multipart message: its headers, and access to its body.
pub struct Part<'a, E> {
    pub body: &'a mut MultipartStream<E>,
    pub headers: HeaderMap,
}

impl<'a, E> Part<'a, E> {
    fn new(stream: &'a mut MultipartStream<E>, headers: HeaderMap) -> (part: Self)
        ensures
            part.headers == headers,
            *part.body == *old(stream),
            *final(part.body) == *final(stream),
    {
        Part { body: stream, headers }
    }

    /// The headers of this part.
    pub fn headers(&self) -> (headers: &HeaderMap)
        ensures
            *headers == self.headers,
    {
        &self.headers
    }

    /// Takes the headers out of this part, for when its body is not needed.
    pub fn into_headers(self) -> (headers: HeaderMap)
        ensures
            headers == self.headers,
            *final(self.body) == *old(self.body),
    {
        self.headers
    }

    /// The body of this part, to be read piece by piece.
    pub fn body(self) -> (body: Body<'a, E>)
        ensures
            *body.stream == *old(self.body),
            *final(body.stream) == *final(self.body),
    {
        Body { stream: self.body }
    }
}

/// The body of a part, in pieces as they arrive.
pub struct Body<'a, E> {
    pub stream: &'a mut MultipartStream<E>,
}

impl<'a, E> Body<'a, E> {
    /// Polls for the next piece; `None` behind the last.
    pub fn poll_next(&mut self) -> (r: Poll<Option<Result<Bytes, Error<E>>>>)
        requires
            old(self).stream.wf(),
        ensures
            final(self).stream.wf(),
            (chunk_poll_view(r), final(self).stream@) == old(self).stream@.poll_body(),
            match (r, old(self).stream@.poll_body().0) {
                (Poll::Ready(Some(Ok(chunk))), Poll::Ready(Some(Ok(bytes)))) => bytes_content(chunk)
                    == bytes,
                (Poll::Ready(Some(Err(e))), Poll::Ready(Some(Err(error)))) => e == error,
                (Poll::Ready(None), Poll::Ready(None)) => true,
                (Poll::Pending, Poll::Pending) => true,
                _ => false,
            },
            *final(final(self).stream) == *final(old(self).stream),
    {
        self.stream.poll_next_body_chunk()
    }
}

} // verus!
