//! What the parser does, as functions on mathematical values: the pieces of a
//! multipart message, the state of a parser, its steps, and what a poll of it
//! comes to.
use vstd::prelude::*;

use crate::error::Error;
use crate::headers::{block_headers, Fields};
use crate::search::{find_first, lemma_find_first, lemma_find_first_extend, occurs_at};
use crate::source::{Arrival, Feed, Poll};

verus! {

/// The end of a line.
pub open spec fn crlf() -> Seq<u8> {
    seq![13u8, 10u8]
}

/// The two hyphens that start a boundary line, and that close the last one.
pub open spec fn hyphens() -> Seq<u8> {
    seq![45u8, 45u8]
}

/// The end of the last header line and the empty line behind it.
pub open spec fn blank_line() -> Seq<u8> {
    seq![13u8, 10u8, 13u8, 10u8]
}

/// `--boundary` and the end of the line: what the headers of a part follow.
/// Nothing may stand between the boundary and the end of the line, blanks
/// neither; what stands before it on the line is not looked at.
pub open spec fn opening(boundary: Seq<u8>) -> Seq<u8> {
    hyphens() + boundary + crlf()
}

/// The end of a line and `--boundary`: what ends a body, if an end of line or
/// two hyphens come next.
pub open spec fn mark(boundary: Seq<u8>) -> Seq<u8> {
    crlf() + hyphens() + boundary
}

/// A mark and the end of the line.
pub open spec fn pattern(boundary: Seq<u8>) -> Seq<u8> {
    crlf() + hyphens() + boundary + crlf()
}

/// Where the header block at the start of `data` ends: behind the end of a line
/// that it starts with, for a block without fields; else behind its first empty
/// line.
pub open spec fn block_end(data: Seq<u8>) -> Option<int> {
    if data.len() >= 2 && data.take(2) == crlf() {
        Some(2)
    } else {
        match find_first(data, blank_line()) {
            Some(at) => Some(at + blank_line().len()),
            None => None,
        }
    }
}

/// A mark stands at `at` that may end a body: the two bytes behind it say so, or
/// are not both there. Any other mark is a look-alike, and content of the body.
pub open spec fn may_end_at(buf: Seq<u8>, mark: Seq<u8>, at: int) -> bool {
    let tail = at + mark.len();
    &&& occurs_at(buf, mark, at)
    &&& {
        ||| buf.len() < tail + 2
        ||| buf.subrange(tail, tail + 2) == crlf()
        ||| buf.subrange(tail, tail + 2) == hyphens()
    }
}

/// `at` is the leftmost position at which a mark stands that may end a body.
pub open spec fn first_may_end_at(buf: Seq<u8>, mark: Seq<u8>, at: int) -> bool {
    &&& may_end_at(buf, mark, at)
    &&& forall|j: int| 0 <= j < at ==> !#[trigger] may_end_at(buf, mark, j)
}

/// The first mark in `buf` that is no look-alike, if there is one.
pub open spec fn past_look_alikes(buf: Seq<u8>, mark: Seq<u8>) -> Option<int> {
    if forall|j: int| !#[trigger] may_end_at(buf, mark, j) {
        None
    } else {
        Some(choose|at: int| first_may_end_at(buf, mark, at))
    }
}

/// Where in a message the parser is.
pub enum Phase {
    /// Looking for the boundary line that opens a part.
    Preamble,
    /// Looking for the end of the header block.
    ReadingHeaders,
    /// Streaming the body.
    StreamingBody,
    /// The last piece of a body was handed out, and the reader does not know
    /// yet that it was the last; `true` if the closing boundary follows it.
    BodyEnded(bool),
    /// Behind the last boundary.
    Finished,
}

/// The state of a parser.
pub struct Core {
    /// The boundary of the message.
    pub boundary: Seq<u8>,
    /// The bytes that were received and not given out yet.
    pub buf: Seq<u8>,
    pub phase: Phase,
    /// The stream was seen to end.
    pub terminated: bool,
}

/// What a step comes to: an answer for the caller, or the need for input.
pub enum Step<T> {
    Return(T),
    Await,
}

/// The answer to the request for a part: its headers, `None` behind the last.
pub type PartReply<E> = Option<Result<Fields, Error<E>>>;

/// The answer to the request for a piece of a body: `None` behind its last.
pub type BodyReply<E> = Option<Result<Seq<u8>, Error<E>>>;

impl Core {
    /// A parser that has received nothing yet.
    pub open spec fn start(boundary: Seq<u8>) -> Core {
        Core { boundary, buf: Seq::empty(), phase: Phase::Preamble, terminated: false }
    }

    /// With `n` bytes less at the front, in another phase.
    pub open spec fn advance(self, n: int, phase: Phase) -> Core {
        Core { buf: self.buf.skip(n), phase, ..self }
    }

    /// In another phase.
    pub open spec fn moved(self, phase: Phase) -> Core {
        Core { phase, ..self }
    }

    /// What `arrival` does to the state.
    pub open spec fn receive<E>(self, arrival: Arrival<E>) -> Core {
        match arrival {
            Arrival::Chunk(bytes) => Core { buf: self.buf + bytes, ..self },
            Arrival::Failed(_) => self,
            Arrival::End => Core { terminated: true, ..self },
        }
    }

    /// Needs input to go on; without any more to come, that is an error.
    pub open spec fn starved<T, E>(self) -> (Step<Option<Result<T, Error<E>>>>, Core) {
        if self.terminated {
            (Step::Return(Some(Err(Error::EarlyTerminate))), self)
        } else {
            (Step::Await, self)
        }
    }

    /// Without the bytes that no boundary line can start in anymore, after a
    /// search of the whole buffer.
    pub open spec fn searched(self) -> Core {
        let line = opening(self.boundary);
        if self.buf.len() >= line.len() {
            self.advance(self.buf.len() - line.len() + 1, self.phase)
        } else {
            self
        }
    }

    /// One step towards the next part, behind its boundary line.
    pub open spec fn head_step<E>(self) -> (Step<PartReply<E>>, Core) {
        match block_end(self.buf) {
            None => self.starved(),
            Some(end) => match block_headers(self.buf.take(end)) {
                Ok(fields) => (
                    Step::Return(Some(Ok(fields))),
                    self.advance(end, Phase::StreamingBody),
                ),
                Err(e) => (Step::Return(Some(Err(Error::ParseError(e)))), self),
            },
        }
    }

    /// One step towards the next part.
    pub open spec fn part_step<E>(self) -> (Step<PartReply<E>>, Core) {
        match self.phase {
            Phase::Preamble => {
                let line = opening(self.boundary);
                match find_first(self.buf, line) {
                    Some(at) => self.advance(
                        at + line.len(),
                        Phase::ReadingHeaders,
                    ).head_step(),
                    None => self.searched().starved(),
                }
            },
            Phase::ReadingHeaders => self.head_step(),
            Phase::StreamingBody => (Step::Return(Some(Err(Error::BodyNotConsumed))), self),
            Phase::BodyEnded(_) => (Step::Return(Some(Err(Error::BodyNotConsumed))), self),
            Phase::Finished => (Step::Return(None), self),
        }
    }

    /// The first `n` bytes are handed out as a piece of the body.
    pub open spec fn hand_out<E>(self, n: int, phase: Phase) -> (Step<BodyReply<E>>, Core) {
        (Step::Return(Some(Ok(self.buf.take(n)))), self.advance(n, phase))
    }

    /// One step towards the next piece of the body.
    pub open spec fn body_step<E>(self) -> (Step<BodyReply<E>>, Core) {
        match self.phase {
            Phase::StreamingBody => {
                let mark = mark(self.boundary);
                if self.buf.len() < mark.len() + 2 {
                    self.starved()
                } else {
                    match past_look_alikes(self.buf, mark) {
                        Some(end) => {
                            let tail = end + mark.len();
                            if self.buf.len() < tail + 2 {
                                if find_first(self.buf, mark) == Some(end) {
                                    self.starved()
                                } else {
                                    self.hand_out(end, Phase::StreamingBody)
                                }
                            } else if self.buf.subrange(tail, tail + 2) == crlf() {
                                // The boundary stays, to open the next part.
                                self.hand_out(end, Phase::BodyEnded(false))
                            } else {
                                (
                                    Step::Return(Some(Ok(self.buf.take(end)))),
                                    Core {
                                        buf: Seq::empty(),
                                        phase: Phase::BodyEnded(true),
                                        ..self
                                    },
                                )
                            }
                        },
                        // All but what may turn out to be the start of a mark.
                        None => self.hand_out(
                            self.buf.len() - mark.len() + 1,
                            Phase::StreamingBody,
                        ),
                    }
                }
            },
            Phase::BodyEnded(closed) => (
                Step::Return(None),
                self.moved(
                    if closed {
                        Phase::Finished
                    } else {
                        Phase::Preamble
                    },
                ),
            ),
            _ => (Step::Return(None), self),
        }
    }
}

/// Where a header block ends in the bytes at hand, it ends there in all of them.
pub proof fn lemma_block_end(data: Seq<u8>, more: Seq<u8>)
    ensures
        block_end(data) matches Some(end) ==> {
            &&& 2 <= end <= data.len()
            &&& block_end(data + more) == Some(end)
            &&& (data + more).take(end) == data.take(end)
            &&& (data + more).skip(end) == data.skip(end) + more
        },
{
    if let Some(end) = block_end(data) {
        lemma_find_first(data, blank_line());
        if data.len() >= 2 {
            assert((data + more).take(2) =~= data.take(2));
        }
        if find_first(data, blank_line()) is Some {
            lemma_find_first_extend(data, more, blank_line());
        }
        assert((data + more).take(end) =~= data.take(end));
        assert((data + more).skip(end) =~= data.skip(end) + more);
    }
}

/// Below any mark that may end a body, or at it, there is a first one.
proof fn lemma_first_may_end_below(buf: Seq<u8>, mark: Seq<u8>, at: int)
    requires
        may_end_at(buf, mark, at),
    ensures
        exists|i: int| i <= at && #[trigger] first_may_end_at(buf, mark, i),
    decreases at,
{
    if exists|j: int| 0 <= j < at && #[trigger] may_end_at(buf, mark, j) {
        let j = choose|j: int| 0 <= j < at && #[trigger] may_end_at(buf, mark, j);
        lemma_first_may_end_below(buf, mark, j);
    } else {
        assert(first_may_end_at(buf, mark, at));
    }
}

/// `past_look_alikes` is the first mark that may end a body, and is `None` only
/// when there is none; it comes no earlier than the first mark.
pub proof fn lemma_past_look_alikes(buf: Seq<u8>, mark: Seq<u8>)
    ensures
        match past_look_alikes(buf, mark) {
            Some(at) => {
                &&& first_may_end_at(buf, mark, at)
                &&& find_first(buf, mark) matches Some(start) && 0 <= start <= at
            },
            None => forall|j: int| !#[trigger] may_end_at(buf, mark, j),
        },
{
    if !(forall|j: int| !#[trigger] may_end_at(buf, mark, j)) {
        let j = choose|j: int| #[trigger] may_end_at(buf, mark, j);
        lemma_first_may_end_below(buf, mark, j);
        lemma_find_first(buf, mark);
    }
}

/// There is only one first mark that may end a body.
pub proof fn lemma_past_look_alikes_is(buf: Seq<u8>, mark: Seq<u8>, at: int)
    requires
        first_may_end_at(buf, mark, at),
    ensures
        past_look_alikes(buf, mark) == Some(at),
{
    lemma_past_look_alikes(buf, mark);
    let other = past_look_alikes(buf, mark)->0;
    assert(may_end_at(buf, mark, at) && may_end_at(buf, mark, other));
}

/// No two marks start next to each other.
proof fn lemma_marks_apart(buf: Seq<u8>, boundary: Seq<u8>, at: int)
    requires
        occurs_at(buf, mark(boundary), at),
    ensures
        !occurs_at(buf, mark(boundary), at + 1),
{
    let m = mark(boundary);
    assert(m[0] == 13 && m[1] == 10);
    assert(buf.subrange(at, at + m.len())[1] == buf[at + 1]);
    if occurs_at(buf, m, at + 1) {
        assert(buf.subrange(at + 1, at + 1 + m.len())[0] == buf[at + 1]);
    }
}

/// A step towards a part keeps the boundary and what the parser knows of the
/// stream, and drops bytes at the front only; some when it finds a part.
pub proof fn lemma_part_step<E>(core: Core)
    ensures
        core.part_step::<E>().1.boundary == core.boundary,
        core.part_step::<E>().1.terminated == core.terminated,
        core.part_step::<E>().1.buf.len() <= core.buf.len(),
        core.part_step::<E>().1.buf == core.buf.skip(
            core.buf.len() - core.part_step::<E>().1.buf.len(),
        ),
        core.part_step::<E>().0 matches Step::Return(Some(Ok(_))) ==> {
            &&& core.part_step::<E>().1.buf.len() < core.buf.len()
            &&& core.part_step::<E>().1.phase == Phase::StreamingBody
        },
        core.part_step::<E>().0 is Await ==> {
            &&& !core.terminated
            &&& core.part_step::<E>().1.phase is Preamble || core.part_step::<E>().1.phase
                is ReadingHeaders
        },
{
    let line = opening(core.boundary);
    assert(core.buf.skip(0) =~= core.buf);
    lemma_block_end(core.buf, Seq::empty());
    if core.phase is Preamble {
        lemma_find_first(core.buf, line);
        if let Some(at) = find_first(core.buf, line) {
            let rest = core.buf.skip(at + line.len());
            lemma_block_end(rest, Seq::empty());
            if let Some(end) = block_end(rest) {
                assert(rest.skip(end) =~= core.buf.skip(at + line.len() + end));
            }
        }
    }
}

/// A step towards a part that needs input would need it again.
pub proof fn lemma_part_step_again<E>(core: Core)
    requires
        core.part_step::<E>().0 is Await,
    ensures
        core.part_step::<E>().1.part_step::<E>() == core.part_step::<E>(),
{
    let line = opening(core.boundary);
    lemma_find_first(core.buf, line);
    if core.phase is Preamble && find_first(core.buf, line) is None {
        let next = core.searched();
        lemma_find_first(next.buf, line);
        assert(next.searched() == next);
    }
}

/// A step towards a piece of the body keeps the boundary and what the parser
/// knows of the stream.
pub proof fn lemma_body_step<E>(core: Core)
    ensures
        core.body_step::<E>().1.boundary == core.boundary,
        core.body_step::<E>().1.terminated == core.terminated,
        core.body_step::<E>().1.buf.len() <= core.buf.len(),
        core.body_step::<E>().0 is Await ==> {
            &&& !core.terminated
            &&& core.phase is StreamingBody
            &&& core.body_step::<E>().1 == core
        },
        core.body_step::<E>().0 matches Step::Return(Some(Ok(chunk))) ==> {
            let next = core.body_step::<E>().1;
            &&& core.phase is StreamingBody
            &&& chunk.len() <= core.buf.len()
            &&& chunk == core.buf.take(chunk.len() as int)
            &&& next.phase is StreamingBody || next.phase is BodyEnded
            &&& next.phase is StreamingBody ==> chunk.len() >= 2
            &&& next.phase != Phase::BodyEnded(true) ==> next.buf == core.buf.skip(
                chunk.len() as int,
            )
            &&& next.phase == Phase::BodyEnded(true) ==> next.buf == Seq::<u8>::empty()
        },
{
    let m = mark(core.boundary);
    if core.phase is StreamingBody {
        lemma_find_first(core.buf, m);
        lemma_past_look_alikes(core.buf, m);
        if let Some(start) = find_first(core.buf, m) {
            lemma_marks_apart(core.buf, core.boundary, start);
        }
    }
}

/// A parser and what its stream has in store.
pub struct Model<E> {
    pub core: Core,
    pub feed: Feed<E>,
}

impl<E> Model<E> {
    /// A parser in this state, and what its stream has in store.
    pub open spec fn of(core: Core, feed: Feed<E>) -> Model<E> {
        Model { core, feed }
    }

    /// The bytes that the parser holds and those that are still to come.
    pub open spec fn data(self) -> Seq<u8> {
        self.core.buf + self.feed.data()
    }

    /// Polling for the next part: steps, each with the next arrival as its
    /// input, until there is an answer or nothing more has arrived.
    pub open spec fn poll_part(self) -> (Poll<PartReply<E>>, Model<E>)
        decreases
            self.feed.items.len(),
            (if self.core.terminated {
                0int
            } else {
                1
            }),
    {
        let (step, core) = self.core.part_step::<E>();
        match step {
            Step::Return(reply) => (Poll::Ready(reply), Model { core, feed: self.feed }),
            Step::Await => {
                let (arrival, feed) = self.feed.next();
                match arrival {
                    None => (Poll::Pending, Model { core, feed }),
                    Some(Arrival::Failed(e)) => (
                        Poll::Ready(Some(Err(Error::StreamError(e)))),
                        Model { core, feed },
                    ),
                    Some(arrival) => Model { core: core.receive(arrival), feed }.poll_part(),
                }
            },
        }
    }

    /// Polling for the next piece of the body.
    pub open spec fn poll_body(self) -> (Poll<BodyReply<E>>, Model<E>)
        decreases
            self.feed.items.len(),
            (if self.core.terminated {
                0int
            } else {
                1
            }),
    {
        let (step, core) = self.core.body_step::<E>();
        match step {
            Step::Return(reply) => (Poll::Ready(reply), Model { core, feed: self.feed }),
            Step::Await => {
                let (arrival, feed) = self.feed.next();
                match arrival {
                    None => (Poll::Pending, Model { core, feed }),
                    Some(Arrival::Failed(e)) => (
                        Poll::Ready(Some(Err(Error::StreamError(e)))),
                        Model { core, feed },
                    ),
                    Some(arrival) => Model { core: core.receive(arrival), feed }.poll_body(),
                }
            },
        }
    }
}

} // verus!
