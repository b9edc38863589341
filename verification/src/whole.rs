//! Reading a message to its end, for callers that want its parts as a whole.
use http::HeaderMap;
use vstd::prelude::*;

use crate::buffer::bytes_slice;
use crate::error::Error;
use crate::headers::{fields_of, Fields};
use crate::reading::{lemma_collect_body, lemma_poll_body, lemma_poll_part, BodyRead, Reading};
use crate::source::Poll;
use crate::stream::MultipartStream;

verus! {

/// How reading a message came to an end.
#[derive(Debug)]
pub enum Outcome<E> {
    /// There are no more parts.
    Complete,
    /// With an error in place of a part.
    Failed(Error<E>),
    /// With an error in the body of the part with these headers.
    BodyFailed(HeaderMap, Error<E>),
    /// For want of input.
    Pending,
}

impl<E> View for Outcome<E> {
    type V = Reading<E>;

    open spec fn view(&self) -> Reading<E> {
        match *self {
            Outcome::Complete => Reading::Complete,
            Outcome::Failed(e) => Reading::Failed(e),
            Outcome::BodyFailed(headers, e) => Reading::BodyFailed(fields_of(headers), e),
            Outcome::Pending => Reading::Pending,
        }
    }
}

/// A part with its body read to the end.
#[derive(Debug)]
pub struct WholePart {
    pub headers: HeaderMap,
    pub body: Vec<u8>,
}

impl View for WholePart {
    type V = (Fields, Seq<u8>);

    open spec fn view(&self) -> (Fields, Seq<u8>) {
        (fields_of(self.headers), self.body@)
    }
}

/// The parts as pairs of fields and body.
pub open spec fn parts_view(parts: Seq<WholePart>) -> Seq<(Fields, Seq<u8>)> {
    parts.map_values(|part: WholePart| part@)
}

/// Puts the pieces of the body one behind the other, until there is no more,
/// and says how that came about.
pub fn concat_body<E>(m: &mut MultipartStream<E>) -> (r: (Vec<u8>, Poll<Option<Error<E>>>))
    requires
        old(m).wf(),
    ensures
        final(m).wf(),
        final(m)@ == old(m)@.collect_body().2,
        r.0@ == old(m)@.collect_body().1,
        old(m)@.collect_body().0 == match r.1 {
            Poll::Ready(None) => BodyRead::Complete,
            Poll::Ready(Some(e)) => BodyRead::Failed(e),
            Poll::Pending => BodyRead::Pending,
        },
{
    let mut body: Vec<u8> = Vec::new();
    proof {
        assert(body@ + m@.collect_body().1 =~= m@.collect_body().1);
    }
    loop
        invariant
            m.wf(),
            old(m)@.collect_body() == (
                m@.collect_body().0,
                body@ + m@.collect_body().1,
                m@.collect_body().2,
            ),
        decreases m@.weight(),
    {
        let ghost before = m@;
        let ghost read = body@;
        proof {
            lemma_poll_body(m@);
        }
        match m.poll_next_body_chunk() {
            Poll::Pending => {
                proof {
                    assert(read + Seq::<u8>::empty() =~= read);
                }
                return (body, Poll::Pending);
            },
            Poll::Ready(None) => {
                proof {
                    assert(read + Seq::<u8>::empty() =~= read);
                }
                return (body, Poll::Ready(None));
            },
            Poll::Ready(Some(Err(e))) => {
                proof {
                    assert(read + Seq::<u8>::empty() =~= read);
                }
                return (body, Poll::Ready(Some(e)));
            },
            Poll::Ready(Some(Ok(chunk))) => {
                let bytes = bytes_slice(&chunk);
                body.extend_from_slice(bytes);
                proof {
                    assert(read + (bytes@ + m@.collect_body().1) =~= body@
                        + m@.collect_body().1);
                }
            },
        }
    }
}

/// Reads part after part, each with its body, until there is no more.
pub fn read_all<E>(m: &mut MultipartStream<E>) -> (r: (Vec<WholePart>, Outcome<E>))
    requires
        old(m).wf(),
    ensures
        final(m).wf(),
        (parts_view(r.0@), r.1@, final(m)@) == old(m)@.read_all(),
        r.0@.len() == old(m)@.read_all().0.len(),
        forall|i: int|
            0 <= i < r.0@.len() ==> fields_of((#[trigger] r.0@[i]).headers)
                == old(m)@.read_all().0[i].0 && r.0@[i].body@ == old(m)@.read_all().0[i].1,
        match (r.1, old(m)@.read_all().1) {
            (Outcome::Complete, Reading::Complete) => true,
            (Outcome::Failed(e), Reading::Failed(error)) => e == error,
            (Outcome::BodyFailed(map, e), Reading::BodyFailed(fields, error)) => fields_of(map)
                == fields && e == error,
            (Outcome::Pending, Reading::Pending) => true,
            _ => false,
        },
{
    let mut parts: Vec<WholePart> = Vec::new();
    proof {
        assert(parts_view(parts@) + m@.read_all().0 =~= m@.read_all().0);
    }
    loop
        invariant
            m.wf(),
            old(m)@.read_all() == (
                parts_view(parts@) + m@.read_all().0,
                m@.read_all().1,
                m@.read_all().2,
            ),
        decreases m@.data().len(),
    {
        let ghost read = parts_view(parts@);
        proof {
            lemma_poll_part(m@);
            lemma_collect_body(m@.poll_part().1);
            assert(read + Seq::<(Fields, Seq<u8>)>::empty() =~= read);
        }
        match m.poll_headers() {
            Poll::Pending => {
                return (parts, Outcome::Pending);
            },
            Poll::Ready(None) => {
                return (parts, Outcome::Complete);
            },
            Poll::Ready(Some(Err(e))) => {
                return (parts, Outcome::Failed(e));
            },
            Poll::Ready(Some(Ok(headers))) => match concat_body(m) {
                (_, Poll::Pending) => {
                    return (parts, Outcome::Pending);
                },
                (_, Poll::Ready(Some(e))) => {
                    return (parts, Outcome::BodyFailed(headers, e));
                },
                (body, Poll::Ready(None)) => {
                    let part = WholePart { headers, body };
                    parts.push(part);
                    proof {
                        assert(parts_view(parts@) =~= read.push(part@));
                        assert(read + (seq![part@] + m@.read_all().0) =~= parts_view(parts@)
                            + m@.read_all().0);
                    }
                },
            },
        }
    }
}

} // verus!
