//! Reading a message through a parser: a body to its end, and part after part.
use vstd::prelude::*;

use crate::document::{
    body_end, ends_at, lemma_body_end, lemma_body_end_is, lemma_body_end_skip, lemma_ends_at,
    next_part, part_headed, Next,
};
use crate::error::Error;
use crate::headers::Fields;
use crate::model::{
    block_end, crlf, hyphens, lemma_block_end, lemma_body_step, lemma_part_step,
    lemma_past_look_alikes, mark, may_end_at, opening, pattern, BodyReply, Core, Model, Phase, Step,
};
use crate::search::{
    find_first, lemma_clear_extend, lemma_find_first, lemma_find_first_extend,
    lemma_find_first_skip, lemma_occurs_extend, occurs_at,
};
use crate::source::{bytes_of, Arrival, Feed, Poll};

verus! {

/// How reading a body came to an end.
pub enum BodyRead<E> {
    /// At the end of the body.
    Complete,
    /// With an error.
    Failed(Error<E>),
    /// For want of input.
    Pending,
}

/// How reading a message came to an end.
pub enum Reading<E> {
    /// There are no more parts.
    Complete,
    /// With an error in place of a part.
    Failed(Error<E>),
    /// With an error in the body of the part with these headers.
    BodyFailed(Fields, Error<E>),
    /// For want of input.
    Pending,
}

/// An arrival puts its bytes behind those that are held, and changes neither
/// the boundary nor the phase.
pub proof fn lemma_receive<E>(core: Core, arrival: Arrival<E>)
    ensures
        core.receive(arrival).boundary == core.boundary,
        core.receive(arrival).buf == core.buf + bytes_of(arrival),
        core.receive(arrival).phase == core.phase,
{
    assert(core.buf + Seq::<u8>::empty() =~= core.buf);
}

/// What is taken from the store is what the next arrival brings.
pub proof fn lemma_feed_next<E>(feed: Feed<E>)
    ensures
        match feed.next().0 {
            Some(arrival) => feed.data() == bytes_of(arrival) + feed.next().1.data(),
            None => feed.data() == feed.next().1.data(),
        },
{
    if feed.items.len() == 0 && feed.closed {
        assert(feed.data() =~= bytes_of(Arrival::<E>::End) + feed.data());
    }
}

/// Receiving the next arrival neither loses nor adds a byte.
pub proof fn lemma_data_receive<E>(core: Core, feed: Feed<E>)
    ensures
        feed.next().0 matches Some(arrival) ==> Model::of(
            core.receive(arrival),
            feed.next().1,
        ).data() == core.buf + feed.data(),
{
    lemma_feed_next(feed);
    if let Some(arrival) = feed.next().0 {
        lemma_receive(core, arrival);
        assert(core.buf + bytes_of(arrival) + feed.next().1.data() =~= core.buf + (bytes_of(
            arrival,
        ) + feed.next().1.data()));
    }
}

impl<E> Model<E> {
    /// A bound on how many pieces of the body can still come.
    pub open spec fn weight(self) -> nat {
        self.data().len() + (if self.core.phase is StreamingBody {
            1nat
        } else {
            0
        })
    }

    /// The pieces of the body one behind the other, until there is no more.
    pub open spec fn collect_body(self) -> (BodyRead<E>, Seq<u8>, Model<E>)
        decreases self.weight(),
    {
        proof {
            lemma_poll_body(self);
        }
        match self.poll_body() {
            (Poll::Pending, next) => (BodyRead::Pending, Seq::empty(), next),
            (Poll::Ready(None), next) => (BodyRead::Complete, Seq::empty(), next),
            (Poll::Ready(Some(Err(e))), next) => (BodyRead::Failed(e), Seq::empty(), next),
            (Poll::Ready(Some(Ok(chunk))), next) => {
                let (end, rest, last) = next.collect_body();
                (end, chunk + rest, last)
            },
        }
    }
}

/// A poll for a piece of the body: what it keeps, and where the bytes go.
pub proof fn lemma_poll_body<E>(m: Model<E>)
    ensures
        m.poll_body().1.core.boundary == m.core.boundary,
        m.poll_body().0 matches Poll::Ready(Some(Ok(chunk))) ==> {
            let next = m.poll_body().1;
            &&& m.core.phase is StreamingBody
            &&& next.core.phase is StreamingBody ==> chunk.len() >= 2
            &&& next.core.phase is StreamingBody || next.core.phase is BodyEnded
            &&& next.core.phase != Phase::BodyEnded(true) ==> m.data() == chunk + next.data()
            &&& next.weight() < m.weight()
        },
        m.poll_body().0 !is Ready || !(m.poll_body().0->Ready_0 matches Some(Ok(_)))
            ==> m.poll_body().1.data() == m.data(),
        m.poll_body().0 !is Ready || (m.poll_body().0->Ready_0 matches Some(Err(_)))
            ==> m.poll_body().1.core.phase is StreamingBody,
        m.core.phase !is StreamingBody ==> m.poll_body().0 == Poll::Ready(
            None::<Result<Seq<u8>, Error<E>>>,
        ),
    decreases
        m.feed.items.len(),
        (if m.core.terminated {
            0int
        } else {
            1
        }),
{
    lemma_body_step::<E>(m.core);
    let (step, core) = m.core.body_step::<E>();
    match step {
        Step::Return(reply) => {
            if let Some(Ok(chunk)) = reply {
                let n = chunk.len() as int;
                assert(m.core.buf =~= chunk + m.core.buf.skip(n));
                assert(chunk + m.core.buf.skip(n) + m.feed.data() =~= chunk + (m.core.buf.skip(n)
                    + m.feed.data()));
            }
        },
        Step::Await => {
            lemma_feed_next(m.feed);
            lemma_data_receive(m.core, m.feed);
            let (arrival, feed) = m.feed.next();
            match arrival {
                None => {},
                Some(Arrival::Failed(_)) => {
                    assert(Seq::<u8>::empty() + feed.data() =~= feed.data());
                },
                Some(arrival) => {
                    lemma_receive(m.core, arrival);
                    lemma_poll_body(Model { core: m.core.receive(arrival), feed });
                },
            }
        },
    }
}

/// A poll for a part: what it keeps, and that it only drops bytes at the front.
pub proof fn lemma_poll_part<E>(m: Model<E>)
    ensures
        m.poll_part().1.core.boundary == m.core.boundary,
        m.poll_part().1.data().len() <= m.data().len(),
        m.poll_part().1.data() == m.data().skip(m.data().len() - m.poll_part().1.data().len()),
        m.poll_part().0 matches Poll::Ready(Some(Ok(_))) ==> {
            &&& m.poll_part().1.core.phase is StreamingBody
            &&& m.poll_part().1.data().len() < m.data().len()
        },
    decreases
        m.feed.items.len(),
        (if m.core.terminated {
            0int
        } else {
            1
        }),
{
    lemma_part_step::<E>(m.core);
    let (step, core) = m.core.part_step::<E>();
    let stepped = Model { core, feed: m.feed };
    let dropped = m.core.buf.len() - core.buf.len();
    assert(stepped.data() =~= m.data().skip(dropped));
    if step is Await {
        lemma_feed_next(m.feed);
        lemma_data_receive(core, m.feed);
        let (arrival, feed) = m.feed.next();
        match arrival {
            None => {},
            Some(Arrival::Failed(_)) => {
                assert(Seq::<u8>::empty() + feed.data() =~= feed.data());
            },
            Some(arrival) => {
                lemma_receive(core, arrival);
                let next = Model { core: core.receive(arrival), feed };
                lemma_poll_part(next);
                let last = next.poll_part().1.data();
                assert(m.data().skip(dropped).skip(next.data().len() - last.len())
                    =~= m.data().skip(m.data().len() - last.len()));
            },
        }
    }
}

/// Reading a body adds no bytes to the store.
pub proof fn lemma_collect_body<E>(m: Model<E>)
    ensures
        m.collect_body().2.core.boundary == m.core.boundary,
        m.collect_body().2.weight() <= m.weight(),
        m.collect_body().2.data().len() <= m.data().len(),
    decreases m.weight(),
{
    lemma_poll_body(m);
    if let (Poll::Ready(Some(Ok(chunk))), next) = m.poll_body() {
        lemma_collect_body(next);
    }
}

impl<E> Model<E> {
    /// Part after part, each with its body read to the end, until there is no
    /// more: the parts, how reading ended, and the state after it.
    pub open spec fn read_all(self) -> (Seq<(Fields, Seq<u8>)>, Reading<E>, Model<E>)
        decreases self.data().len(),
    {
        proof {
            lemma_poll_part(self);
            lemma_collect_body(self.poll_part().1);
        }
        match self.poll_part() {
            (Poll::Pending, next) => (Seq::empty(), Reading::Pending, next),
            (Poll::Ready(None), next) => (Seq::empty(), Reading::Complete, next),
            (Poll::Ready(Some(Err(e))), next) => (Seq::empty(), Reading::Failed(e), next),
            (Poll::Ready(Some(Ok(fields))), next) => match next.collect_body() {
                (BodyRead::Pending, _, last) => (Seq::empty(), Reading::Pending, last),
                (BodyRead::Failed(e), _, last) => (
                    Seq::empty(),
                    Reading::BodyFailed(fields, e),
                    last,
                ),
                (BodyRead::Complete, body, after) => {
                    let (parts, end, last) = after.read_all();
                    (seq![(fields, body)] + parts, end, last)
                },
            },
        }
    }

    /// The stream brings chunks only, and then its end; if the end was seen,
    /// nothing is left to come.
    pub open spec fn steady(self) -> bool {
        &&& self.feed.closed
        &&& forall|i: int|
            0 <= i < self.feed.items.len() ==> (#[trigger] self.feed.items[i]) is Chunk
        &&& self.core.terminated ==> self.feed.items.len() == 0
    }

    /// What the bytes, held and to come, hold next, for a parser that is
    /// looking for a part.
    pub open spec fn outlook(self) -> Next {
        if self.core.phase is Preamble {
            next_part(self.data(), self.core.boundary)
        } else {
            part_headed(self.data())
        }
    }
}

/// A step that waits for input does not change what the bytes hold next.
pub proof fn lemma_part_step_outlook<E>(m: Model<E>)
    requires
        m.core.part_step::<E>().0 is Await,
    ensures
        Model::of(m.core.part_step::<E>().1, m.feed).outlook() == m.outlook(),
{
    let core = m.core;
    let line = opening(core.boundary);
    let next = Model::of(core.part_step::<E>().1, m.feed);
    if core.phase is Preamble {
        lemma_find_first(core.buf, line);
        match find_first(core.buf, line) {
            Some(at) => {
                lemma_find_first_extend(core.buf, m.feed.data(), line);
                assert(next.data() =~= m.data().skip(at + line.len()));
            },
            None => {
                if core.buf.len() >= line.len() {
                    let dropped = core.buf.len() - line.len() + 1;
                    assert(next.data() =~= m.data().skip(dropped));
                    lemma_clear_extend(core.buf, m.feed.data(), line, dropped);
                    lemma_find_first_skip(m.data(), line, dropped);
                    if let Some(at) = find_first(next.data(), line) {
                        lemma_find_first(next.data(), line);
                        assert(next.data().skip(at + line.len()) =~= m.data().skip(
                            dropped + at + line.len(),
                        ));
                    }
                }
            },
        }
    }
}

/// The answer `reply` of a parser that is looking for a part, after which it
/// is in the state `next`, is what the bytes that are held and to come say.
pub open spec fn answers_part<E>(
    m: Model<E>,
    reply: Option<Result<Fields, Error<E>>>,
    next: Model<E>,
) -> bool {
    match m.outlook() {
        Next::Part(fields, rest) => reply == Some(Ok::<_, Error<E>>(fields)) && next.data() == rest,
        Next::Malformed(e) => reply == Some(Err::<Fields, Error<E>>(Error::ParseError(e))),
        Next::Cut => reply == Some(Err::<Fields, Error<E>>(Error::EarlyTerminate)),
    }
}

/// A step behind a boundary line that answers says what the bytes hold, if the
/// buffer holds all of them or it parses headers.
proof fn lemma_head_step_answer<E>(m: Model<E>)
    requires
        m.core.phase is ReadingHeaders,
        m.core.head_step::<E>().0 is Return,
        m.core.terminated ==> m.feed.data() == Seq::<u8>::empty(),
    ensures
        answers_part(
            m,
            m.core.head_step::<E>().0->Return_0,
            Model::of(m.core.head_step::<E>().1, m.feed),
        ),
{
    lemma_block_end(m.core.buf, m.feed.data());
    if block_end(m.core.buf) is None {
        assert(m.data() =~= m.core.buf);
    }
}

/// A step towards a part that answers says what the bytes hold, if the buffer
/// holds all of them or it parses headers.
pub proof fn lemma_part_step_answer<E>(m: Model<E>)
    requires
        m.core.phase is Preamble || m.core.phase is ReadingHeaders,
        m.core.part_step::<E>().0 is Return,
        m.core.terminated ==> m.feed.data() == Seq::<u8>::empty(),
    ensures
        answers_part(
            m,
            m.core.part_step::<E>().0->Return_0,
            Model::of(m.core.part_step::<E>().1, m.feed),
        ),
{
    let core = m.core;
    let line = opening(core.boundary);
    if core.phase is Preamble {
        lemma_find_first(core.buf, line);
        match find_first(core.buf, line) {
            Some(at) => {
                lemma_find_first_extend(core.buf, m.feed.data(), line);
                let behind = Model::of(
                    core.advance(at + line.len(), Phase::ReadingHeaders),
                    m.feed,
                );
                assert(behind.data() =~= m.data().skip(at + line.len()));
                lemma_head_step_answer(behind);
            },
            None => {
                assert(m.data() =~= core.buf);
            },
        }
    } else {
        lemma_head_step_answer(m);
    }
}

/// What is left of a steady stream after an arrival is steady.
proof fn lemma_steady_next<E>(m: Model<E>, core: Core)
    requires
        m.steady(),
        !core.terminated,
    ensures
        m.feed.next().0 matches Some(arrival) && arrival !is Failed && Model::of(
            core.receive(arrival),
            m.feed.next().1,
        ).steady(),
{
    let feed = m.feed.next().1;
    assert forall|i: int| 0 <= i < feed.items.len() implies (#[trigger] feed.items[i]) is Chunk by {
        if m.feed.items.len() > 0 {
            assert(feed.items[i] == m.feed.items[i + 1]);
        }
    }
}

/// On a steady stream, a poll for a part answers with what the bytes hold
/// next, however they are cut into chunks.
pub proof fn lemma_poll_part_steady<E>(m: Model<E>)
    requires
        m.steady(),
        m.core.phase is Preamble || m.core.phase is ReadingHeaders,
    ensures
        m.poll_part().0 is Ready,
        answers_part(m, m.poll_part().0->Ready_0, m.poll_part().1),
        m.poll_part().1.steady(),
    decreases
        m.feed.items.len(),
        (if m.core.terminated {
            0int
        } else {
            1
        }),
{
    lemma_part_step::<E>(m.core);
    let (step, core) = m.core.part_step::<E>();
    match step {
        Step::Return(_) => {
            lemma_part_step_answer(m);
        },
        Step::Await => {
            lemma_part_step_outlook(m);
            lemma_data_receive(core, m.feed);
            lemma_steady_next(m, core);
            let (arrival, feed) = m.feed.next();
            let arrival = arrival->0;
            lemma_receive(core, arrival);
            let next = Model { core: core.receive(arrival), feed };
            assert(next.data() == Model::of(core, m.feed).data());
            lemma_poll_part_steady(next);
        },
    }
}

/// No body ends before the first mark.
proof fn lemma_end_is_mark(data: Seq<u8>, boundary: Seq<u8>, at: int)
    requires
        ends_at(data, boundary, at),
    ensures
        occurs_at(data, mark(boundary), at),
        find_first(data, mark(boundary)) is Some,
        find_first(data, mark(boundary))->0 <= at,
{
    lemma_ends_at(data, boundary, at);
    lemma_find_first(data, mark(boundary));
}

/// The piece `chunk` of a body that starts where `data` starts, after which
/// the parser is in `phase`, is the front of the body, and all of it if the
/// parser says that it has ended.
pub open spec fn is_piece(data: Seq<u8>, boundary: Seq<u8>, chunk: Seq<u8>, phase: Phase) -> bool {
    &&& chunk.len() <= data.len()
    &&& chunk == data.take(chunk.len() as int)
    &&& match phase {
        Phase::StreamingBody => {
            body_end(data, boundary) matches Some(end) ==> chunk.len() <= end
        },
        Phase::BodyEnded(closed) => {
            &&& body_end(data, boundary) == Some(chunk.len() as int)
            &&& occurs_at(data, pattern(boundary), chunk.len() as int) <==> !closed
        },
        _ => false,
    }
}

/// No body ends before a position up to which the buffer holds look-alikes
/// only.
proof fn lemma_no_end_before(buf: Seq<u8>, more: Seq<u8>, boundary: Seq<u8>, next: int)
    requires
        next + mark(boundary).len() <= buf.len() + 1,
        forall|j: int| 0 <= j < next ==> !#[trigger] may_end_at(buf, mark(boundary), j),
    ensures
        forall|j: int| 0 <= j < next ==> !#[trigger] ends_at(buf + more, boundary, j),
        body_end(buf + more, boundary) matches Some(end) ==> next <= end,
{
    let data = buf + more;
    assert forall|j: int| 0 <= j < next implies !#[trigger] ends_at(data, boundary, j) by {
        let tail = j + mark(boundary).len();
        lemma_ends_at(data, boundary, j);
        lemma_occurs_extend(buf, more, mark(boundary), j);
        assert(!may_end_at(buf, mark(boundary), j));
        if tail + 2 <= buf.len() {
            assert(data.subrange(tail, tail + 2) =~= buf.subrange(tail, tail + 2));
        }
    }
    lemma_body_end(data, boundary);
}

/// A piece that a step hands out is a piece of the body that the bytes hold.
pub proof fn lemma_body_step_piece<E>(m: Model<E>)
    ensures
        m.core.body_step::<E>().0 matches Step::Return(Some(Ok(chunk))) ==> is_piece(
            m.data(),
            m.core.boundary,
            chunk,
            m.core.body_step::<E>().1.phase,
        ),
{
    let core = m.core;
    let b = core.boundary;
    let data = m.data();
    lemma_body_step::<E>(core);
    if let Step::Return(Some(Ok(chunk))) = core.body_step::<E>().0 {
        let n = chunk.len() as int;
        assert(chunk =~= data.take(n));
        lemma_past_look_alikes(core.buf, mark(b));
        lemma_no_end_before(core.buf, m.feed.data(), b, n);
        if core.body_step::<E>().1.phase is BodyEnded {
            let tail = n + mark(b).len();
            assert(data.subrange(tail, tail + 2) =~= core.buf.subrange(tail, tail + 2));
            lemma_occurs_extend(core.buf, m.feed.data(), mark(b), n);
            assert(crlf()[0] != hyphens()[0]);
            lemma_ends_at(data, b, n);
            lemma_body_end_is(data, b, n);
        }
    }
}

/// The answer `reply` of a parser that streams a body, after which it is in
/// `phase`, fits the bytes that are held and to come.
pub open spec fn answers_body<E>(m: Model<E>, reply: BodyReply<E>, phase: Phase) -> bool {
    match reply {
        Some(Ok(chunk)) => is_piece(m.data(), m.core.boundary, chunk, phase),
        Some(Err(e)) => e is EarlyTerminate && body_end(m.data(), m.core.boundary) is None,
        None => false,
    }
}

/// What a body step that answers says of the whole of the bytes.
proof fn lemma_body_step_answer<E>(m: Model<E>)
    requires
        m.core.phase is StreamingBody,
        m.core.body_step::<E>().0 is Return,
        m.core.terminated ==> m.feed.data() == Seq::<u8>::empty(),
    ensures
        answers_body(m, m.core.body_step::<E>().0->Return_0, m.core.body_step::<E>().1.phase),
{
    let b = m.core.boundary;
    lemma_body_step_piece(m);
    if let Some(Err(_)) = m.core.body_step::<E>().0->Return_0 {
        // Starved: the buffer is all there is.
        let data = m.data();
        assert(data =~= m.core.buf);
        lemma_body_end(data, b);
        lemma_past_look_alikes(data, mark(b));
        if let Some(end) = body_end(data, b) {
            lemma_end_is_mark(data, b, end);
            lemma_ends_at(data, b, end);
        }
    }
}

/// On a steady stream, a poll for a piece of the body answers with a piece, or
/// with the news that the body does not end.
pub proof fn lemma_poll_body_steady<E>(m: Model<E>)
    requires
        m.steady(),
        m.core.phase is StreamingBody,
    ensures
        m.poll_body().0 is Ready,
        answers_body(m, m.poll_body().0->Ready_0, m.poll_body().1.core.phase),
        m.poll_body().1.steady(),
    decreases
        m.feed.items.len(),
        (if m.core.terminated {
            0int
        } else {
            1
        }),
{
    lemma_body_step::<E>(m.core);
    let (step, core) = m.core.body_step::<E>();
    match step {
        Step::Return(_) => {
            lemma_body_step_answer(m);
        },
        Step::Await => {
            lemma_data_receive(core, m.feed);
            lemma_steady_next(m, core);
            let (arrival, feed) = m.feed.next();
            let arrival = arrival->0;
            lemma_receive(core, arrival);
            lemma_poll_body_steady(Model { core: core.receive(arrival), feed });
        },
    }
}

/// On a steady stream, what is read of a body is what the bytes say it is,
/// however they are cut into chunks.
pub proof fn lemma_collect_body_steady<E>(m: Model<E>)
    requires
        m.steady(),
        m.core.phase is StreamingBody,
    ensures
        match body_end(m.data(), m.core.boundary) {
            None => m.collect_body().0 == BodyRead::<E>::Failed(Error::EarlyTerminate),
            Some(end) => {
                &&& m.collect_body().0 is Complete
                &&& m.collect_body().1 == m.data().take(end)
                &&& m.collect_body().2.steady()
                &&& if occurs_at(m.data(), pattern(m.core.boundary), end) {
                    &&& m.collect_body().2.core.phase is Preamble
                    &&& m.collect_body().2.data() == m.data().skip(end)
                } else {
                    m.collect_body().2.core.phase is Finished
                }
            },
        },
    decreases m.weight(),
{
    lemma_poll_body(m);
    lemma_poll_body_steady(m);
    let b = m.core.boundary;
    if let (Poll::Ready(Some(Ok(chunk))), next) = m.poll_body() {
        let n = chunk.len() as int;
        if next.core.phase is StreamingBody {
            assert(next.data() =~= m.data().skip(n));
            lemma_body_end_skip(m.data(), b, n);
            lemma_collect_body_steady(next);
            if let Some(end) = body_end(m.data(), b) {
                lemma_body_end(m.data(), b);
                assert(occurs_at(m.data(), pattern(b), end) <==> occurs_at(
                    m.data().skip(n),
                    pattern(b),
                    end - n,
                ));
                assert(chunk + m.data().skip(n).take(end - n) =~= m.data().take(end));
                assert(m.data().skip(n).skip(end - n) =~= m.data().skip(end));
            }
        } else {
            // The next poll tells that the body has ended.
            let last = next.poll_body().1;
            assert(next.poll_body().0 == Poll::Ready(None::<Result<Seq<u8>, Error<E>>>));
            assert(last.data() == next.data());
            assert(next.collect_body() == (BodyRead::<E>::Complete, Seq::<u8>::empty(), last));
            assert(chunk + Seq::<u8>::empty() =~= chunk);
            if occurs_at(m.data(), pattern(b), n) {
                assert(next.data() =~= m.data().skip(n));
            }
        }
    }
}

} // verus!
