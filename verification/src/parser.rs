//! The parser itself: a state machine that is handed what a byte stream
//! brings, and answers requests for the next part and for the next piece of a
//! body with a result or with the need for more input.
use bytes::{Bytes, BytesMut};
use http::HeaderMap;
use vstd::prelude::*;
use vstd::slice::slice_subrange;

use crate::buffer::{buffer_content, buffer_slice, bytes_content, bytes_slice, drop_front};
use crate::error::Error;
use crate::headers::{fields_of, parse_header_block};
use crate::model::{
    blank_line, lemma_past_look_alikes, lemma_past_look_alikes_is, mark, may_end_at, opening,
    past_look_alikes, pattern, BodyReply, Core, PartReply, Phase, Step,
};
use crate::search::{
    clear_before, find, find_first, lemma_clear_extend, lemma_find_first, lemma_find_first_is,
    lemma_find_first_skip, lemma_occurs_skip, occurs_at,
};
use crate::source::Incoming;

verus! {

/// Where in a message the parser is.
#[derive(Clone, Copy, Debug)]
pub enum ParserState {
    /// Scanning for the boundary line that opens a part.
    Preamble,
    /// Scanning for the end of the part's headers, from this position on.
    ReadingHeaders(usize),
    /// Streaming the part's body.
    StreamingBody,
    /// The body was handed out to its end, which its reader has yet to be told;
    /// `true` if the closing boundary follows it.
    BodyEnded(bool),
    /// The message has been fully consumed.
    Finished,
}

impl View for ParserState {
    type V = Phase;

    open spec fn view(&self) -> Phase {
        match *self {
            ParserState::Preamble => Phase::Preamble,
            ParserState::ReadingHeaders(_) => Phase::ReadingHeaders,
            ParserState::StreamingBody => Phase::StreamingBody,
            ParserState::BodyEnded(closed) => Phase::BodyEnded(closed),
            ParserState::Finished => Phase::Finished,
        }
    }
}

/// The state machine behind a [`MultipartStream`](crate::stream::MultipartStream).
pub struct Parser {
    terminated: bool,
    state: ParserState,
    /// The end of a line, `--boundary`, the end of a line.
    pattern: Vec<u8>,
    buf: BytesMut,
}

/// The reply of a part step with the header map as its fields.
pub open spec fn part_step_view<E>(r: Step<Option<Result<HeaderMap, Error<E>>>>) -> Step<
    PartReply<E>,
> {
    match r {
        Step::Return(None) => Step::Return(None),
        Step::Return(Some(Ok(map))) => Step::Return(Some(Ok(fields_of(map)))),
        Step::Return(Some(Err(e))) => Step::Return(Some(Err(e))),
        Step::Await => Step::Await,
    }
}

/// The reply of a body step with the chunk as its bytes.
pub open spec fn body_step_view<E>(r: Step<Option<Result<Bytes, Error<E>>>>) -> Step<
    BodyReply<E>,
> {
    match r {
        Step::Return(None) => Step::Return(None),
        Step::Return(Some(Ok(chunk))) => Step::Return(Some(Ok(bytes_content(chunk)))),
        Step::Return(Some(Err(e))) => Step::Return(Some(Err(e))),
        Step::Await => Step::Await,
    }
}

impl View for Parser {
    type V = Core;

    closed spec fn view(&self) -> Core {
        Core {
            boundary: self.pattern@.subrange(4, self.pattern@.len() - 2),
            buf: buffer_content(self.buf),
            phase: self.state@,
            terminated: self.terminated,
        }
    }
}

impl Parser {
    /// The pattern is the one of the boundary, and the search for the end of
    /// the headers resumes where no empty line can start earlier.
    pub closed spec fn wf(&self) -> bool {
        &&& self.pattern@.len() >= 6
        &&& self.pattern@ == pattern(self@.boundary)
        &&& self.state matches ParserState::ReadingHeaders(scan) ==> {
            &&& scan <= self@.buf.len()
            &&& scan == 0 || scan + blank_line().len() <= self@.buf.len() + 1
            &&& clear_before(self@.buf, blank_line(), scan as int)
        }
    }

    /// A parser for messages with this boundary, given without the leading
    /// hyphens.
    pub fn new(boundary: &[u8]) -> (parser: Self)
        ensures
            parser.wf(),
            parser@ == Core::start(boundary@),
    {
        let mut pattern: Vec<u8> = Vec::new();
        pattern.push(13);
        pattern.push(10);
        pattern.push(45);
        pattern.push(45);
        pattern.extend_from_slice(boundary);
        pattern.push(13);
        pattern.push(10);
        let parser = Parser {
            terminated: false,
            state: ParserState::Preamble,
            pattern,
            buf: BytesMut::new(),
        };
        proof {
            assert(parser.pattern@ =~= crate::model::pattern(boundary@));
            assert(parser@.boundary =~= boundary@);
        }
        parser
    }

    /// The number of bytes that were received and not given out yet.
    pub fn buffered_len(&self) -> (n: usize)
        ensures
            n == self@.buf.len(),
    {
        self.buf.len()
    }

    /// The pattern and its two parts that are searched for.
    proof fn lemma_pattern(&self)
        requires
            self.wf(),
        ensures
            self.pattern@.len() == self@.boundary.len() + 6,
            self.pattern@.subrange(0, self.pattern@.len() - 2) == mark(self@.boundary),
            self.pattern@.subrange(2, self.pattern@.len() as int) == opening(self@.boundary),
            mark(self@.boundary).len() == self@.boundary.len() + 4,
            opening(self@.boundary).len() == self@.boundary.len() + 4,
    {
        assert(self.pattern@.subrange(0, self.pattern@.len() - 2) =~= mark(self@.boundary));
        assert(self.pattern@.subrange(2, self.pattern@.len() as int) =~= opening(self@.boundary));
    }

    /// Resumes the search for the end of the headers at another position.
    fn update_scan(&mut self, new_scan: usize)
        requires
            old(self).state is ReadingHeaders,
        ensures
            final(self).pattern == old(self).pattern,
            final(self).buf == old(self).buf,
            final(self).terminated == old(self).terminated,
            final(self).state == ParserState::ReadingHeaders(new_scan),
    {
        self.state = ParserState::ReadingHeaders(new_scan);
    }

    /// Takes what polling the stream brought: bytes go behind those that are
    /// buffered, the end is remembered, and a failure is the caller's to report.
    pub fn receive<E>(&mut self, item: Incoming<E>) -> (failure: Option<Error<E>>)
        requires
            old(self).wf(),
            item matches Incoming::Chunk(bytes) ==> old(self)@.buf.len() + bytes_content(
                bytes,
            ).len() <= usize::MAX,
        ensures
            final(self).wf(),
            final(self)@ == old(self)@.receive(item@),
            failure == match item {
                Incoming::Failed(e) => Some(Error::StreamError(e)),
                _ => None,
            },
    {
        match item {
            Incoming::Chunk(chunk) => {
                let bytes = bytes_slice(&chunk);
                self.buf.extend_from_slice(bytes);
                proof {
                    if let ParserState::ReadingHeaders(scan) = old(self).state {
                        if scan > 0 {
                            lemma_clear_extend(
                                old(self)@.buf,
                                bytes@,
                                blank_line(),
                                scan as int,
                            );
                        }
                    }
                }
                None
            },
            Incoming::Failed(e) => Some(Error::StreamError(e)),
            Incoming::End => {
                self.terminated = true;
                None
            },
        }
    }

    /// The first position at which `needle` starts in the buffer, if the
    /// search starts at `scan`.
    fn find_from(&self, scan: usize, needle: &[u8]) -> (found: Option<usize>)
        requires
            scan <= self@.buf.len(),
        ensures
            match found {
                Some(at) => find_first(self@.buf.skip(scan as int), needle@) == Some(at as int),
                None => find_first(self@.buf.skip(scan as int), needle@) is None,
            },
            found matches Some(at) ==> scan + at + needle@.len() <= self@.buf.len(),
    {
        let bytes = buffer_slice(&self.buf);
        let hay = slice_subrange(bytes, scan, bytes.len());
        proof {
            assert(hay@ =~= self@.buf.skip(scan as int));
            lemma_find_first(hay@, needle@);
        }
        let found = find(hay, needle);
        proof {
            if let Some(at) = found {
                lemma_find_first_is(hay@, needle@, at as int);
            }
        }
        found
    }

    /// Goes past the look-alikes, from the first mark on, to a mark that ends
    /// the body, or that may do so once more bytes are there.
    fn find_end(&self, start: usize, mark: &[u8]) -> (found: Option<usize>)
        requires
            find_first(self@.buf, mark@) == Some(start as int),
            0 < mark@.len(),
        ensures
            match found {
                Some(end) => past_look_alikes(self@.buf, mark@) == Some(end as int),
                None => past_look_alikes(self@.buf, mark@) is None,
            },
    {
        let bytes = buffer_slice(&self.buf);
        let len: usize = bytes.len();
        let mark_len: usize = mark.len();
        let mut end: usize = start;
        let ghost buf = self@.buf;
        proof {
            lemma_find_first(buf, mark@);
        }
        loop
            invariant
                buf == self@.buf,
                bytes@ == buf,
                len == buf.len(),
                mark_len == mark@.len(),
                0 < mark_len,
                occurs_at(buf, mark@, end as int),
                forall|j: int| 0 <= j < end ==> !#[trigger] may_end_at(buf, mark@, j),
            decreases len - end,
        {
            let tail: usize = end + mark_len;
            if len - tail < 2 {
                proof {
                    lemma_past_look_alikes_is(buf, mark@, end as int);
                }
                return Some(end);
            }
            let (first, second) = (bytes[tail], bytes[tail + 1]);
            proof {
                assert(seq![first, second] =~= buf.subrange(tail as int, tail as int + 2));
                assert(seq![first, second][0] == first && seq![first, second][1] == second);
            }
            if (first == 13 && second == 10) || (first == 45 && second == 45) {
                proof {
                    lemma_past_look_alikes_is(buf, mark@, end as int);
                }
                return Some(end);
            }
            let ghost rest = buf.skip(end + 1);
            proof {
                assert(!may_end_at(buf, mark@, end as int));
                lemma_find_first(rest, mark@);
            }
            match self.find_from(end + 1, mark) {
                Some(at) => {
                    proof {
                        lemma_occurs_skip(buf, mark@, end + 1, at as int);
                        assert forall|j: int| 0 <= j < end + 1 + at implies !#[trigger] may_end_at(
                            buf,
                            mark@,
                            j,
                        ) by {
                            if end < j {
                                lemma_occurs_skip(buf, mark@, end + 1, j - end - 1);
                            }
                        }
                    }
                    end = end + 1 + at;
                },
                None => {
                    proof {
                        assert forall|j: int| !#[trigger] may_end_at(buf, mark@, j) by {
                            if end < j {
                                lemma_occurs_skip(buf, mark@, end + 1, j - end - 1);
                            }
                        }
                    }
                    return None;
                },
            }
        }
    }

    /// What is to be said when the buffer has nothing more to offer: input is
    /// needed, and its absence is an error once the stream has ended.
    fn starved<T, E>(&self) -> (r: Step<Option<Result<T, Error<E>>>>)
        ensures
            (r, self@) == self@.starved::<T, E>(),
    {
        if self.terminated {
            Step::Return(Some(Err(Error::EarlyTerminate)))
        } else {
            Step::Await
        }
    }

    /// One step towards the next part, behind its boundary line.
    fn head_step<E>(&mut self) -> (r: Step<Option<Result<HeaderMap, Error<E>>>>)
        requires
            old(self).wf(),
            old(self).state is ReadingHeaders,
        ensures
            final(self).wf(),
            (part_step_view(r), final(self)@) == old(self)@.head_step::<E>(),
    {
        let len: usize = self.buf.len();
        let ghost core = self@;
        let scan: usize = match self.state {
            ParserState::ReadingHeaders(scan) => scan,
            _ => 0,
        };
        proof {
            lemma_find_first(core.buf, blank_line());
        }
        if len < 2 {
            return self.starved();
        }
        let bytes = buffer_slice(&self.buf);
        let (first, second) = (bytes[0], bytes[1]);
        proof {
            assert(core.buf.take(2) =~= seq![first, second]);
            assert(seq![first, second][0] == first && seq![first, second][1] == second);
        }
        let end: usize = if first == 13 && second == 10 {
            2
        } else {
            let blank: [u8; 4] = [13, 10, 13, 10];
            proof {
                assert(blank@ =~= blank_line());
                lemma_find_first_skip(core.buf, blank_line(), scan as int);
                lemma_find_first(core.buf.skip(scan as int), blank_line());
            }
            if len - scan < 4 {
                return self.starved();
            }
            match self.find_from(scan, &blank) {
                Some(at) => scan + at + 4,
                None => {
                    self.update_scan(len - 4 + 1);
                    return self.starved();
                },
            }
        };
        let block = slice_subrange(buffer_slice(&self.buf), 0, end);
        proof {
            assert(block@ =~= core.buf.take(end as int));
        }
        match parse_header_block(block) {
            Ok(headers) => {
                drop_front(&mut self.buf, end);
                self.state = ParserState::StreamingBody;
                Step::Return(Some(Ok(headers)))
            },
            Err(e) => Step::Return(Some(Err(Error::ParseError(e)))),
        }
    }

    /// One step towards the next part.
    pub fn part_step<E>(&mut self) -> (r: Step<Option<Result<HeaderMap, Error<E>>>>)
        requires
            old(self).wf(),
        ensures
            final(self).wf(),
            (part_step_view(r), final(self)@) == old(self)@.part_step::<E>(),
            match (r, old(self)@.part_step::<E>().0) {
                (Step::Return(Some(Ok(map))), Step::Return(Some(Ok(fields)))) => fields_of(map)
                    == fields,
                (Step::Return(Some(Err(e))), Step::Return(Some(Err(error)))) => e == error,
                (Step::Return(None), Step::Return(None)) => true,
                (Step::Await, Step::Await) => true,
                _ => false,
            },
    {
        proof {
            self.lemma_pattern();
        }
        let len: usize = self.buf.len();
        match self.state {
            ParserState::Preamble => {
                let line = slice_subrange(self.pattern.as_slice(), 2, self.pattern.len());
                let line_len: usize = line.len();
                proof {
                    assert(self@.buf.skip(0) =~= self@.buf);
                    lemma_find_first(self@.buf, line@);
                }
                if len < line_len {
                    return self.starved();
                }
                match self.find_from(0, line) {
                    Some(at) => {
                        drop_front(&mut self.buf, at + line_len);
                        self.state = ParserState::ReadingHeaders(0);
                        self.head_step()
                    },
                    None => {
                        drop_front(&mut self.buf, len - line_len + 1);
                        self.starved()
                    },
                }
            },
            ParserState::ReadingHeaders(_) => self.head_step(),
            ParserState::StreamingBody => Step::Return(Some(Err(Error::BodyNotConsumed))),
            ParserState::BodyEnded(_) => Step::Return(Some(Err(Error::BodyNotConsumed))),
            ParserState::Finished => Step::Return(None),
        }
    }

    /// Hands out the first `n` bytes of the buffer.
    fn split_front(&mut self, n: usize) -> (chunk: Bytes)
        requires
            n <= old(self)@.buf.len(),
        ensures
            bytes_content(chunk) == old(self)@.buf.take(n as int),
            final(self).pattern == old(self).pattern,
            final(self).state == old(self).state,
            final(self).terminated == old(self).terminated,
            final(self)@.buf == old(self)@.buf.skip(n as int),
    {
        self.buf.split_to(n).freeze()
    }

    /// One step towards the next piece of the body; there is none when no body
    /// is being streamed.
    pub fn body_step<E>(&mut self) -> (r: Step<Option<Result<Bytes, Error<E>>>>)
        requires
            old(self).wf(),
        ensures
            final(self).wf(),
            (body_step_view(r), final(self)@) == old(self)@.body_step::<E>(),
            match (r, old(self)@.body_step::<E>().0) {
                (Step::Return(Some(Ok(chunk))), Step::Return(Some(Ok(bytes)))) => bytes_content(
                    chunk,
                ) == bytes,
                (Step::Return(Some(Err(e))), Step::Return(Some(Err(error)))) => e == error,
                (Step::Return(None), Step::Return(None)) => true,
                (Step::Await, Step::Await) => true,
                _ => false,
            },
    {
        proof {
            self.lemma_pattern();
        }
        let len: usize = self.buf.len();
        match self.state {
            ParserState::StreamingBody => {},
            ParserState::BodyEnded(closed) => {
                self.state = if closed {
                    ParserState::Finished
                } else {
                    ParserState::Preamble
                };
                return Step::Return(None);
            },
            _ => {
                return Step::Return(None);
            },
        }
        let mark_len: usize = self.pattern.len() - 2;
        if len < self.pattern.len() {
            return self.starved();
        }
        let mark = slice_subrange(self.pattern.as_slice(), 0, mark_len);
        proof {
            assert(self@.buf.skip(0) =~= self@.buf);
            lemma_find_first(self@.buf, mark@);
        }
        let start: usize = match self.find_from(0, mark) {
            Some(start) => start,
            None => {
                proof {
                    lemma_past_look_alikes(self@.buf, mark@);
                }
                let chunk = self.split_front(len - mark_len + 1);
                return Step::Return(Some(Ok(chunk)));
            },
        };
        match self.find_end(start, mark) {
            Some(end) => {
                proof {
                    lemma_past_look_alikes(self@.buf, mark@);
                }
                let tail: usize = end + mark_len;
                if len - tail < 2 {
                    if end == start {
                        return self.starved();
                    }
                    let chunk = self.split_front(end);
                    return Step::Return(Some(Ok(chunk)));
                }
                let bytes = buffer_slice(&self.buf);
                let (first, second) = (bytes[tail], bytes[tail + 1]);
                proof {
                    assert(seq![first, second] =~= self@.buf.subrange(
                        tail as int,
                        tail as int + 2,
                    ));
                    assert(seq![first, second][0] == first && seq![first, second][1] == second);
                }
                let chunk = self.split_front(end);
                if first == 13 && second == 10 {
                    self.state = ParserState::BodyEnded(false);
                } else {
                    self.buf.clear();
                    self.state = ParserState::BodyEnded(true);
                }
                Step::Return(Some(Ok(chunk)))
            },
            None => {
                let chunk = self.split_front(len - mark_len + 1);
                Step::Return(Some(Ok(chunk)))
            },
        }
    }
}

} // verus!
