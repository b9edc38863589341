//! What the answers of the parser say of the bytes and of the stream, whatever
//! the stream brings: chunks, failures, its end, or nothing yet.
use vstd::prelude::*;

use crate::conduct::lemma_part_error_again;
use crate::document::{
    body_end, lemma_body_end, lemma_body_end_extend, lemma_body_end_skip, lemma_ends_at,
    lemma_next_part_shorter, message, next_part, part_headed, Ending, Next,
};
use crate::error::Error;
use crate::headers::Fields;
use crate::model::{
    lemma_block_end, lemma_body_step, lemma_part_step, lemma_past_look_alikes,
    lemma_past_look_alikes_is, mark, may_end_at, opening, pattern, Core, Model, Phase, Step,
};
use crate::reading::{
    is_piece, lemma_body_step_piece, lemma_collect_body, lemma_part_step_answer,
    lemma_part_step_outlook, lemma_poll_body, lemma_poll_part, lemma_receive, BodyRead, Reading,
};
use crate::search::{
    find_first, lemma_find_first, lemma_find_first_extend, lemma_occurs_skip, occurs_at,
};
use crate::source::{bytes_of, data_of, Arrival, Feed, Poll};

verus! {

/// No poll for a part says that there are no more parts but behind the last
/// boundary, whatever the stream brings.
pub proof fn law_no_more_parts<E>(m: Model<E>)
    ensures
        m.poll_part().0 == Poll::Ready(None::<Result<Fields, Error<E>>>) <==> m.core.phase
            is Finished,
{
    if m.core.phase is Preamble || m.core.phase is ReadingHeaders {
        law_part_answer(m);
    }
}

/// No poll for a piece of a body says that there is no more of it while the body
/// is being streamed, whatever the stream brings.
pub proof fn law_no_more_body<E>(m: Model<E>)
    ensures
        m.poll_body().0 == Poll::Ready(None::<Result<Seq<u8>, Error<E>>>) <==> !(m.core.phase
            is StreamingBody),
{
    if m.core.phase is StreamingBody {
        law_body_answer(m);
    }
}

/// The next part is refused as long as the body of the previous one has not been
/// read to its end, and for no other reason.
pub proof fn law_refused_only_in_a_body<E>(m: Model<E>)
    ensures
        m.poll_part().0 == Poll::Ready(
            Some(Err::<Fields, Error<E>>(Error::BodyNotConsumed)),
        ) <==> (m.core.phase is StreamingBody || m.core.phase is BodyEnded),
{
    if m.core.phase is Preamble || m.core.phase is ReadingHeaders {
        law_part_answer(m);
    }
}

/// What `data` holds for a parser that is looking for a part.
pub open spec fn found(core: Core, data: Seq<u8>) -> Next {
    if core.phase is Preamble {
        next_part(data, core.boundary)
    } else {
        part_headed(data)
    }
}

/// A stream that brings these bytes, and then its end.
spec fn bringing<E>(bytes: Seq<u8>) -> Feed<E> {
    Feed { items: seq![Arrival::Chunk(bytes)], closed: true }
}

proof fn lemma_bringing<E>(bytes: Seq<u8>)
    ensures
        bringing::<E>(bytes).data() == bytes,
{
    let items = seq![Arrival::<E>::Chunk(bytes)];
    assert(items.drop_first() =~= Seq::empty());
    assert(data_of(items.drop_first()) =~= Seq::<u8>::empty());
    assert(data_of(items) =~= bytes);
}

/// The bytes of a list of arrivals are those of its first and of the others.
proof fn lemma_data_first<E>(items: Seq<Arrival<E>>, k: int)
    requires
        0 < k <= items.len(),
    ensures
        data_of(items.take(k)) == bytes_of(items[0]) + data_of(items.drop_first().take(k - 1)),
{
    assert(items.take(k).drop_first() =~= items.drop_first().take(k - 1));
}

proof fn lemma_data_none<E>(items: Seq<Arrival<E>>)
    ensures
        data_of(items.take(0)) == Seq::<u8>::empty(),
{
    assert(data_of(items.take(0)) =~= Seq::empty());
}

/// A step that waits has found nothing in what is held, and what it leaves
/// holds, with whatever comes behind it, what was held before.
proof fn lemma_part_step_waits<E>(core: Core, more: Seq<u8>)
    requires
        core.part_step::<E>().0 is Await,
    ensures
        found(core, core.buf) is Cut,
        found(core.part_step::<E>().1, core.part_step::<E>().1.buf + more) == found(
            core,
            core.buf + more,
        ),
{
    lemma_bringing::<E>(more);
    let m = Model::of(core, bringing::<E>(more));
    lemma_part_step::<E>(core);
    lemma_part_step_outlook(m);
    lemma_find_first(core.buf, opening(core.boundary));
}

/// What a step that answers says of the bytes that are held.
proof fn lemma_part_step_says<E>(core: Core)
    requires
        core.phase is Preamble || core.phase is ReadingHeaders,
        core.part_step::<E>().0 is Return,
    ensures
        match core.part_step::<E>().0->Return_0 {
            Some(Ok(fields)) => {
                &&& found(core, core.buf) == Next::Part(fields, core.part_step::<E>().1.buf)
                &&& core.part_step::<E>().1.phase is StreamingBody
                &&& core.part_step::<E>().1.terminated == core.terminated
            },
            Some(Err(Error::ParseError(e))) => found(core, core.buf) == Next::Malformed(e),
            Some(Err(Error::EarlyTerminate)) => found(core, core.buf) is Cut && core.terminated,
            _ => false,
        },
        core.part_step::<E>().1.boundary == core.boundary,
{
    let nothing = Feed::<E> { items: Seq::empty(), closed: true };
    let m = Model::of(core, nothing);
    assert(nothing.data() =~= Seq::<u8>::empty());
    assert(m.data() =~= core.buf);
    let next = core.part_step::<E>().1;
    assert(Model::of(next, nothing).data() =~= next.buf);
    lemma_part_step::<E>(core);
    lemma_part_step_answer(m);
}

/// What a poll for a part says. It takes arrivals one after the other, until the
/// bytes hold a part, and not one more; so it stops with the part that they hold,
/// or with the error in its headers. It stops short of that only where the
/// stream fails, which it reports; where the stream has ended, which then is too
/// early; and where nothing has arrived yet, for which it waits.
pub proof fn law_part_answer<E>(m: Model<E>)
    requires
        m.core.phase is Preamble || m.core.phase is ReadingHeaders,
    ensures
        ({
            let next = m.poll_part().1;
            let items = m.feed.items;
            let k = items.len() - next.feed.items.len();
            let bytes = m.core.buf + data_of(items.take(k));
            &&& 0 <= k
            &&& next.feed.items == items.skip(k)
            &&& next.feed.closed == m.feed.closed
            &&& next.core.boundary == m.core.boundary
            &&& m.core.terminated ==> k == 0
            &&& forall|i: int| 0 <= i < k - 1 ==> (#[trigger] items[i]) is Chunk
            &&& k > 0 ==> found(m.core, m.core.buf + data_of(items.take(k - 1))) is Cut
            &&& match m.poll_part().0 {
                Poll::Ready(Some(Ok(fields))) => {
                    &&& found(m.core, bytes) == Next::Part(fields, next.core.buf)
                    &&& next.core.terminated == m.core.terminated
                    &&& next.core.phase is StreamingBody
                    &&& k > 0 ==> items[k - 1] is Chunk
                },
                Poll::Ready(Some(Err(Error::ParseError(e)))) => {
                    &&& found(m.core, bytes) == Next::Malformed(e)
                    &&& k > 0 ==> items[k - 1] is Chunk
                },
                Poll::Ready(Some(Err(Error::StreamError(e)))) => {
                    &&& k > 0
                    &&& items[k - 1] == Arrival::Failed(e)
                    &&& found(m.core, bytes) is Cut
                },
                Poll::Ready(Some(Err(Error::EarlyTerminate))) => {
                    &&& found(m.core, bytes) is Cut
                    &&& m.core.terminated || (k > 0 && items[k - 1] is End) || (k == items.len()
                        && m.feed.closed && (k > 0 ==> items[k - 1] is Chunk))
                },
                Poll::Pending => {
                    &&& found(m.core, bytes) is Cut
                    &&& k == items.len()
                    &&& k > 0 ==> items[k - 1] is Chunk
                    &&& !m.feed.closed
                    &&& !m.core.terminated
                },
                _ => false,
            }
        }),
    decreases
        m.feed.items.len(),
        (if m.core.terminated {
            0int
        } else {
            1
        }),
{
    let items = m.feed.items;
    lemma_part_step::<E>(m.core);
    lemma_data_none(items);
    assert(items.skip(0) =~= items);
    assert(m.core.buf + Seq::<u8>::empty() =~= m.core.buf);
    let (step, core) = m.core.part_step::<E>();
    match step {
        Step::Return(_) => {
            lemma_part_step_says::<E>(m.core);
        },
        Step::Await => {
            lemma_part_step_waits::<E>(m.core, Seq::empty());
            let (arrival, feed) = m.feed.next();
            if items.len() > 0 {
                lemma_data_first(items, 1);
                lemma_data_none(items.drop_first());
                assert(items.skip(1) =~= items.drop_first());
            }
            match arrival {
                None => {},
                Some(Arrival::Failed(e)) => {
                    assert(bytes_of(items[0]) + Seq::<u8>::empty() =~= Seq::<u8>::empty());
                },
                Some(arrival) => {
                    let next = Model { core: core.receive(arrival), feed };
                    lemma_receive(core, arrival);
                    law_part_answer(next);
                    let last = m.poll_part().1;
                    assert(last == next.poll_part().1);
                    let j = feed.items.len() - last.feed.items.len();
                    let more = bytes_of(arrival) + data_of(feed.items.take(j));
                    assert(next.core.buf + data_of(feed.items.take(j)) =~= core.buf + more);
                    lemma_part_step_waits::<E>(m.core, more);
                    if items.len() > 0 {
                        let k = j + 1;
                        lemma_data_first(items, k);
                        assert(items.skip(k) =~= feed.items.skip(j));
                        assert forall|i: int| 0 <= i < k - 1 implies (
                        #[trigger] items[i]) is Chunk by {
                            if i > 0 {
                                assert(items[i] == feed.items[i - 1]);
                            }
                        }
                        if j > 0 {
                            let less = bytes_of(arrival) + data_of(feed.items.take(j - 1));
                            assert(items[k - 1] == feed.items[j - 1]);
                            lemma_data_first(items, k - 1);
                            assert(next.core.buf + data_of(feed.items.take(j - 1)) =~= core.buf
                                + less);
                            lemma_part_step_waits::<E>(m.core, less);
                        }
                    } else {
                        assert(more =~= Seq::<u8>::empty());
                        assert(items.skip(j) == feed.items.skip(j));
                    }
                },
            }
        },
    }
}

/// A failure and a pause lose nothing: what a poll for a part keeps holds, with
/// whatever follows, the same part as all the bytes that were there.
pub proof fn law_part_bytes_are_kept<E>(m: Model<E>, more: Seq<u8>)
    requires
        m.poll_part().0 is Pending || (m.poll_part().0 matches Poll::Ready(Some(Err(e))) && e
            is StreamError),
    ensures
        ({
            let next = m.poll_part().1;
            let k = m.feed.items.len() - next.feed.items.len();
            let bytes = m.core.buf + data_of(m.feed.items.take(k));
            &&& next.core.phase is Preamble || next.core.phase is ReadingHeaders
            &&& next.core.boundary == m.core.boundary
            &&& !next.core.terminated
            &&& found(next.core, next.core.buf + more) == found(m.core, bytes + more)
        }),
    decreases
        m.feed.items.len(),
        (if m.core.terminated {
            0int
        } else {
            1
        }),
{
    let items = m.feed.items;
    lemma_part_step::<E>(m.core);
    lemma_data_none(items);
    let (step, core) = m.core.part_step::<E>();
    if step is Await {
        let (arrival, feed) = m.feed.next();
        lemma_part_step_waits::<E>(m.core, more);
        assert(m.core.buf + Seq::<u8>::empty() =~= m.core.buf);
        if items.len() > 0 {
            lemma_data_first(items, 1);
            lemma_data_none(items.drop_first());
        }
        match arrival {
            None => {},
            Some(Arrival::Failed(e)) => {
                assert(bytes_of(items[0]) + Seq::<u8>::empty() =~= Seq::<u8>::empty());
            },
            Some(arrival) => {
                let next = Model { core: core.receive(arrival), feed };
                lemma_receive(core, arrival);
                law_part_answer(next);
                law_part_bytes_are_kept(next, more);
                let last = m.poll_part().1;
                let j = feed.items.len() - last.feed.items.len();
                let bytes = data_of(feed.items.take(j));
                let all = bytes_of(arrival) + bytes;
                assert(next.core.buf + bytes + more =~= core.buf + (all + more));
                assert(m.core.buf + all + more =~= m.core.buf + (all + more));
                lemma_part_step_waits::<E>(m.core, all + more);
                if items.len() > 0 {
                    lemma_data_first(items, j + 1);
                } else {
                    assert(all =~= bytes);
                }
            },
        }
    }
}

/// No piece of a body can be handed out yet: there are too few bytes to tell
/// content from the start of a delimiter, or the first mark stands at the end of
/// them, with less than two bytes behind it.
pub open spec fn tells_nothing(bytes: Seq<u8>, boundary: Seq<u8>) -> bool {
    ||| bytes.len() < boundary.len() + 6
    ||| find_first(bytes, mark(boundary)) matches Some(start) && bytes.len() < start
        + boundary.len() + 6
}

/// What is kept of a body behind a piece of it: as many bytes as a delimiter can
/// start with, or a mark with less than two bytes behind it.
pub open spec fn is_start(kept: Seq<u8>, boundary: Seq<u8>) -> bool {
    ||| kept.len() == boundary.len() + 3
    ||| kept.len() < boundary.len() + 6 && occurs_at(kept, mark(boundary), 0)
}

/// Bytes that tell nothing yet end no body.
proof fn lemma_tells_nothing(bytes: Seq<u8>, boundary: Seq<u8>)
    requires
        tells_nothing(bytes, boundary),
    ensures
        body_end(bytes, boundary) is None,
{
    lemma_body_end(bytes, boundary);
    lemma_find_first(bytes, mark(boundary));
    if let Some(end) = body_end(bytes, boundary) {
        lemma_ends_at(bytes, boundary, end);
    }
}

/// What a body step says of the bytes that are held.
proof fn lemma_body_step_says<E>(core: Core, more: Seq<u8>)
    requires
        core.phase is StreamingBody,
    ensures
        core.body_step::<E>().1.boundary == core.boundary,
        match core.body_step::<E>().0 {
            Step::Return(Some(Ok(chunk))) => {
                let next = core.body_step::<E>().1;
                &&& !tells_nothing(core.buf, core.boundary)
                &&& next.terminated == core.terminated
                &&& is_piece(core.buf + more, core.boundary, chunk, next.phase)
                &&& next.phase is StreamingBody ==> chunk.len() >= 2
                &&& next.phase != Phase::BodyEnded(true) ==> core.buf == chunk + next.buf
                &&& next.phase is StreamingBody ==> is_start(next.buf, core.boundary)
                &&& next.phase == Phase::BodyEnded(true) ==> next.buf.len() == 0
            },
            Step::Return(Some(Err(Error::EarlyTerminate))) => {
                &&& core.terminated
                &&& core.body_step::<E>().1 == core
                &&& tells_nothing(core.buf, core.boundary)
            },
            Step::Await => {
                &&& !core.terminated
                &&& core.body_step::<E>().1 == core
                &&& tells_nothing(core.buf, core.boundary)
            },
            _ => false,
        },
{
    lemma_body_step::<E>(core);
    lemma_bringing::<E>(more);
    lemma_body_step_piece(Model::of(core, bringing::<E>(more)));
    let m = mark(core.boundary);
    lemma_past_look_alikes(core.buf, m);
    lemma_find_first(core.buf, m);
    if let Some(start) = find_first(core.buf, m) {
        if core.buf.len() < start + m.len() + 2 {
            assert forall|j: int| 0 <= j < start implies !#[trigger] may_end_at(core.buf, m, j) by {
                assert(!occurs_at(core.buf, m, j));
            }
            assert(may_end_at(core.buf, m, start));
            lemma_past_look_alikes_is(core.buf, m, start);
        }
    }
    if let Step::Return(Some(Ok(chunk))) = core.body_step::<E>().0 {
        let n = chunk.len() as int;
        assert(core.buf =~= chunk + core.buf.skip(n));
        if occurs_at(core.buf, m, n) {
            lemma_occurs_skip(core.buf, m, n, 0);
        }
    }
}

/// What a poll for a piece of a body says. It takes arrivals one after the
/// other, until a piece can be handed out, and not one more. It stops short of
/// that only where the stream fails, which it reports; where the stream has
/// ended, which then is too early; and where nothing has arrived yet, for which
/// it waits. Then every byte is still held, and the body has not ended in them.
pub proof fn law_body_answer<E>(m: Model<E>)
    requires
        m.core.phase is StreamingBody,
    ensures
        ({
            let next = m.poll_body().1;
            let items = m.feed.items;
            let k = items.len() - next.feed.items.len();
            let bytes = m.core.buf + data_of(items.take(k));
            let b = m.core.boundary;
            &&& 0 <= k
            &&& next.feed.items == items.skip(k)
            &&& next.feed.closed == m.feed.closed
            &&& next.core.boundary == b
            &&& m.core.terminated ==> k == 0
            &&& forall|i: int| 0 <= i < k - 1 ==> (#[trigger] items[i]) is Chunk
            &&& forall|j: int|
                0 <= j < k ==> tells_nothing(m.core.buf + data_of(#[trigger] items.take(j)), b)
            &&& match m.poll_body().0 {
                Poll::Ready(Some(Ok(chunk))) => {
                    &&& !tells_nothing(bytes, b)
                    &&& next.core.terminated == m.core.terminated
                    &&& forall|more: Seq<u8>|
                        is_piece(#[trigger] (bytes + more), b, chunk, next.core.phase)
                    &&& next.core.phase is StreamingBody ==> chunk.len() >= 2
                    &&& next.core.phase is StreamingBody ==> is_start(next.core.buf, b)
                    &&& next.core.phase == Phase::BodyEnded(true) ==> next.core.buf.len() == 0
                    &&& next.core.phase != Phase::BodyEnded(true) ==> bytes == chunk
                        + next.core.buf
                    &&& k > 0 ==> items[k - 1] is Chunk
                },
                Poll::Ready(Some(Err(Error::StreamError(e)))) => {
                    &&& k > 0
                    &&& items[k - 1] == Arrival::Failed(e)
                    &&& next.core.buf == bytes
                    &&& next.core.phase is StreamingBody
                    &&& !next.core.terminated
                    &&& tells_nothing(bytes, b)
                },
                Poll::Ready(Some(Err(Error::EarlyTerminate))) => {
                    &&& next.core.buf == bytes
                    &&& next.core.phase is StreamingBody
                    &&& tells_nothing(bytes, b)
                    &&& m.core.terminated || (k > 0 && items[k - 1] is End) || (k == items.len()
                        && m.feed.closed && (k > 0 ==> items[k - 1] is Chunk))
                },
                Poll::Pending => {
                    &&& next.core.buf == bytes
                    &&& next.core.phase is StreamingBody
                    &&& tells_nothing(bytes, b)
                    &&& k == items.len()
                    &&& k > 0 ==> items[k - 1] is Chunk
                    &&& !m.feed.closed
                    &&& !m.core.terminated
                    &&& !next.core.terminated
                },
                _ => false,
            }
        }),
    decreases
        m.feed.items.len(),
        (if m.core.terminated {
            0int
        } else {
            1
        }),
{
    let items = m.feed.items;
    let b = m.core.boundary;
    lemma_data_none(items);
    assert(items.skip(0) =~= items);
    assert(m.core.buf + Seq::<u8>::empty() =~= m.core.buf);
    lemma_body_step_says::<E>(m.core, Seq::empty());
    let (step, core) = m.core.body_step::<E>();
    match step {
        Step::Return(reply) => {
            if let Some(Ok(chunk)) = reply {
                assert forall|more: Seq<u8>|
                    is_piece(#[trigger] (m.core.buf + more), b, chunk, core.phase) by {
                    lemma_body_step_says::<E>(m.core, more);
                }
            }
        },
        Step::Await => {
            let (arrival, feed) = m.feed.next();
            if items.len() > 0 {
                lemma_data_first(items, 1);
                lemma_data_none(items.drop_first());
                assert(items.skip(1) =~= items.drop_first());
            }
            match arrival {
                None => {},
                Some(Arrival::Failed(e)) => {
                    assert(bytes_of(items[0]) + Seq::<u8>::empty() =~= Seq::<u8>::empty());
                },
                Some(arrival) => {
                    let next = Model { core: core.receive(arrival), feed };
                    lemma_receive(core, arrival);
                    law_body_answer(next);
                    let last = m.poll_body().1;
                    assert(last == next.poll_body().1);
                    let j = feed.items.len() - last.feed.items.len();
                    let more = bytes_of(arrival) + data_of(feed.items.take(j));
                    assert(next.core.buf + data_of(feed.items.take(j)) =~= core.buf + more);
                    if items.len() > 0 {
                        let k = j + 1;
                        lemma_data_first(items, k);
                        assert(items.skip(k) =~= feed.items.skip(j));
                        assert forall|i: int| 0 <= i < k - 1 implies (
                        #[trigger] items[i]) is Chunk by {
                            if i > 0 {
                                assert(items[i] == feed.items[i - 1]);
                            }
                        }
                        if j > 0 {
                            assert(items[k - 1] == feed.items[j - 1]);
                        }
                        assert forall|i: int| 0 <= i < k implies tells_nothing(
                            m.core.buf + data_of(#[trigger] items.take(i)),
                            b,
                        ) by {
                            if i > 0 {
                                let less = bytes_of(arrival) + data_of(feed.items.take(i - 1));
                                lemma_data_first(items, i);
                                assert(next.core.buf + data_of(feed.items.take(i - 1))
                                    =~= core.buf + less);
                            }
                        }
                    } else {
                        assert(more =~= Seq::<u8>::empty());
                        assert(items.skip(j) == feed.items.skip(j));
                    }
                },
            }
        },
    }
}

/// A part that the bytes at hand hold is the one that all of them hold.
pub proof fn lemma_next_part_extend(data: Seq<u8>, more: Seq<u8>, boundary: Seq<u8>)
    ensures
        match next_part(data, boundary) {
            Next::Part(fields, rest) => next_part(data + more, boundary) == Next::Part(
                fields,
                rest + more,
            ),
            Next::Malformed(e) => next_part(data + more, boundary) == Next::Malformed(e),
            Next::Cut => true,
        },
        match part_headed(data) {
            Next::Part(fields, rest) => part_headed(data + more) == Next::Part(fields, rest + more),
            Next::Malformed(e) => part_headed(data + more) == Next::Malformed(e),
            Next::Cut => true,
        },
{
    let line = opening(boundary);
    lemma_block_end(data, more);
    lemma_find_first(data, line);
    if let Some(at) = find_first(data, line) {
        let rest = data.skip(at + line.len());
        lemma_find_first_extend(data, more, line);
        assert((data + more).skip(at + line.len()) =~= rest + more);
        lemma_block_end(rest, more);
    }
}

/// More arrivals bring more bytes.
proof fn lemma_data_split<E>(items: Seq<Arrival<E>>, j: int, k: int)
    requires
        0 <= j <= k <= items.len(),
    ensures
        data_of(items.take(k)) == data_of(items.take(j)) + data_of(items.skip(j).take(k - j)),
    decreases j,
{
    if j == 0 {
        lemma_data_none(items);
        assert(items.skip(0) =~= items);
        assert(data_of(items.take(k)) =~= Seq::<u8>::empty() + data_of(items.take(k)));
    } else {
        let rest = items.drop_first();
        lemma_data_first(items, j);
        lemma_data_first(items, k);
        lemma_data_split(rest, j - 1, k - 1);
        assert(rest.skip(j - 1).take(k - j) =~= items.skip(j).take(k - j));
        assert(bytes_of(items[0]) + (data_of(rest.take(j - 1)) + data_of(
            items.skip(j).take(k - j),
        )) =~= bytes_of(items[0]) + data_of(rest.take(j - 1)) + data_of(items.skip(j).take(k - j)));
    }
}

/// What a poll for a part comes to, told from the arrivals: where `k` chunks
/// bring a part, that part is given out, or the error in its headers; where they
/// bring none and a failure follows them, the failure is reported; where the end
/// follows them, it is too early; and where nothing follows them yet, the poll
/// waits.
pub proof fn law_part_outcome<E>(m: Model<E>, k: int)
    requires
        m.core.phase is Preamble || m.core.phase is ReadingHeaders,
        !m.core.terminated,
        0 <= k <= m.feed.items.len(),
        forall|i: int| 0 <= i < k ==> (#[trigger] m.feed.items[i]) is Chunk,
    ensures
        ({
            let items = m.feed.items;
            let bytes = m.core.buf + data_of(items.take(k));
            match found(m.core, bytes) {
                Next::Part(fields, _) => m.poll_part().0 == Poll::Ready(
                    Some(Ok::<_, Error<E>>(fields)),
                ),
                Next::Malformed(e) => m.poll_part().0 == Poll::Ready(
                    Some(Err::<Fields, _>(Error::<E>::ParseError(e))),
                ),
                Next::Cut => {
                    &&& k < items.len() && items[k] is Failed ==> m.poll_part().0 == Poll::Ready(
                        Some(Err::<Fields, _>(Error::<E>::StreamError(items[k]->Failed_0))),
                    )
                    &&& (k < items.len() && items[k] is End) || (k == items.len() && m.feed.closed)
                        ==> m.poll_part().0 == Poll::Ready(
                        Some(Err::<Fields, _>(Error::<E>::EarlyTerminate)),
                    )
                    &&& k == items.len() && !m.feed.closed ==> m.poll_part().0 is Pending
                },
            }
        }),
{
    law_part_answer(m);
    let items = m.feed.items;
    let next = m.poll_part().1;
    let n = items.len() - next.feed.items.len();
    let bytes = m.core.buf + data_of(items.take(k));
    let taken = m.core.buf + data_of(items.take(n));
    if n <= k {
        let more = data_of(items.skip(n).take(k - n));
        lemma_data_split(items, n, k);
        assert(bytes =~= taken + more);
        lemma_next_part_extend(taken, more, m.core.boundary);
        if n > 0 {
            assert(items[n - 1] is Chunk);
        }
    } else {
        let less = m.core.buf + data_of(items.take(n - 1));
        let more = data_of(items.skip(k).take(n - 1 - k));
        lemma_data_split(items, k, n - 1);
        assert(less =~= bytes + more);
        lemma_next_part_extend(bytes, more, m.core.boundary);
        if k < n - 1 {
            assert(items[k] is Chunk);
        }
    }
}

/// What a poll for a piece of a body comes to, told from the arrivals: where `k`
/// chunks bring nothing that can be handed out and a failure follows them, the
/// failure is reported; where the end follows them, it is too early; where
/// nothing follows them yet, the poll waits. Where the next chunk tells more, a
/// piece is handed out.
pub proof fn law_body_outcome<E>(m: Model<E>, k: int)
    requires
        m.core.phase is StreamingBody,
        !m.core.terminated,
        0 <= k <= m.feed.items.len(),
        forall|i: int| 0 <= i < k ==> (#[trigger] m.feed.items[i]) is Chunk,
        forall|i: int|
            0 <= i < k ==> tells_nothing(
                m.core.buf + data_of(#[trigger] m.feed.items.take(i)),
                m.core.boundary,
            ),
    ensures
        ({
            let items = m.feed.items;
            let bytes = m.core.buf + data_of(items.take(k));
            if tells_nothing(bytes, m.core.boundary) {
                &&& k < items.len() && items[k] is Failed ==> m.poll_body().0 == Poll::Ready(
                    Some(Err::<Seq<u8>, _>(Error::<E>::StreamError(items[k]->Failed_0))),
                )
                &&& (k < items.len() && items[k] is End) || (k == items.len() && m.feed.closed)
                    ==> m.poll_body().0 == Poll::Ready(
                    Some(Err::<Seq<u8>, _>(Error::<E>::EarlyTerminate)),
                )
                &&& k == items.len() && !m.feed.closed ==> m.poll_body().0 is Pending
            } else {
                m.poll_body().0 matches Poll::Ready(Some(Ok(_)))
            }
        }),
{
    law_body_answer(m);
    let items = m.feed.items;
    let next = m.poll_body().1;
    let n = items.len() - next.feed.items.len();
    let b = m.core.boundary;
    if n > 0 && n <= k {
        assert(items[n - 1] is Chunk);
    }
    if k < n {
        assert(tells_nothing(m.core.buf + data_of(items.take(k)), b));
    }
    if k < n - 1 {
        assert(items[k] is Chunk);
    }
    if n < k {
        assert(tells_nothing(m.core.buf + data_of(items.take(n)), b));
    }
}

/// The stream has ended behind the first `k` arrivals, or had ended before.
pub open spec fn ended_behind<E>(m: Model<E>, k: int) -> bool {
    ||| m.core.terminated
    ||| 0 < k <= m.feed.items.len() && m.feed.items[k - 1] is End
    ||| k == m.feed.items.len() && m.feed.closed
}

/// The arrivals of two readings, one behind the other.
proof fn lemma_taken_in_turn<E>(m: Model<E>, front: Seq<u8>, next: Model<E>, j: int, n: int)
    requires
        0 <= j <= m.feed.items.len(),
        next.feed.items == m.feed.items.skip(j),
        0 <= n <= next.feed.items.len(),
        m.core.buf + data_of(m.feed.items.take(j)) == front + next.core.buf,
    ensures
        m.core.buf + data_of(m.feed.items.take(j + n)) == front + (next.core.buf + data_of(
            next.feed.items.take(n),
        )),
        m.feed.items.skip(j + n) == next.feed.items.skip(n),
{
    lemma_data_split(m.feed.items, j, j + n);
    let more = data_of(next.feed.items.take(n));
    assert(m.core.buf + (data_of(m.feed.items.take(j)) + more) =~= m.core.buf + data_of(
        m.feed.items.take(j),
    ) + more);
    assert(front + next.core.buf + more =~= front + (next.core.buf + more));
    assert(m.feed.items.skip(j + n) =~= next.feed.items.skip(n));
}

/// What reading a body to its end says, whatever the stream brings: a complete
/// body is the body that the bytes hold; one that is not complete is so because
/// the stream fails, has ended, or has not brought more yet, and then every byte
/// has been read or is still held, and the body has not ended in them.
pub proof fn law_collected_body<E>(m: Model<E>)
    requires
        m.core.phase is StreamingBody,
    ensures
        ({
            let (end, body, last) = m.collect_body();
            let items = m.feed.items;
            let k = items.len() - last.feed.items.len();
            let bytes = m.core.buf + data_of(items.take(k));
            let b = m.core.boundary;
            let n = body.len() as int;
            &&& 0 <= k
            &&& last.feed.items == items.skip(k)
            &&& last.feed.closed == m.feed.closed
            &&& last.core.boundary == b
            &&& forall|i: int| 0 <= i < k - 1 ==> (#[trigger] items[i]) is Chunk
            &&& match end {
                BodyRead::Complete => {
                    &&& body_end(bytes, b) == Some(n)
                    &&& body == bytes.take(n)
                    &&& k > 0 ==> items[k - 1] is Chunk
                    &&& last.core.terminated == m.core.terminated
                    &&& if occurs_at(bytes, pattern(b), n) {
                        last.core.phase is Preamble && last.core.buf == bytes.skip(n)
                    } else {
                        last.core.phase is Finished
                    }
                },
                BodyRead::Failed(Error::StreamError(e)) => {
                    &&& k > 0
                    &&& items[k - 1] == Arrival::Failed(e)
                    &&& body + last.core.buf == bytes
                    &&& body_end(bytes, b) is None
                },
                BodyRead::Failed(Error::EarlyTerminate) => {
                    &&& ended_behind(m, k)
                    &&& k > 0 ==> !(items[k - 1] is Failed)
                    &&& body + last.core.buf == bytes
                    &&& body_end(bytes, b) is None
                },
                BodyRead::Pending => {
                    &&& k == items.len()
                    &&& k > 0 ==> items[k - 1] is Chunk
                    &&& !m.feed.closed
                    &&& body + last.core.buf == bytes
                    &&& body_end(bytes, b) is None
                },
                _ => false,
            }
        }),
    decreases m.weight(),
{
    lemma_poll_body(m);
    law_body_answer(m);
    let items = m.feed.items;
    let b = m.core.boundary;
    let next = m.poll_body().1;
    let j = items.len() - next.feed.items.len();
    let taken = m.core.buf + data_of(items.take(j));
    match m.poll_body().0 {
        Poll::Ready(Some(Ok(chunk))) => {
            if next.core.phase is StreamingBody {
                law_collected_body(next);
                let (end, body, last) = next.collect_body();
                let i = next.feed.items.len() - last.feed.items.len();
                let k = j + i;
                let behind = next.core.buf + data_of(next.feed.items.take(i));
                lemma_taken_in_turn(m, chunk, next, j, i);
                lemma_data_split(items, j, k);
                let more = data_of(items.skip(j).take(k - j));
                assert(m.core.buf + data_of(items.take(k)) =~= taken + more);
                assert(is_piece(taken + more, b, chunk, next.core.phase));
                lemma_piece_and_body(chunk, behind, b, body, last.core.buf);
                lemma_chunks_in_turn(items, j, k);
                if i > 0 {
                    assert(items[k - 1] == next.feed.items[i - 1]);
                }
            } else {
                let n = chunk.len() as int;
                let last = next.poll_body().1;
                assert(next.collect_body() == (BodyRead::<E>::Complete, Seq::<u8>::empty(), last));
                assert(chunk + Seq::<u8>::empty() =~= chunk);
                assert(taken + Seq::<u8>::empty() =~= taken);
                assert(is_piece(taken + Seq::<u8>::empty(), b, chunk, next.core.phase));
                if next.core.phase == Phase::BodyEnded(false) {
                    assert(next.core.buf =~= taken.skip(n));
                }
            }
        },
        _ => {
            lemma_tells_nothing(taken, b);
            assert(Seq::<u8>::empty() + next.core.buf =~= next.core.buf);
        },
    }
}

/// Chunks in turn are chunks throughout.
proof fn lemma_chunks_in_turn<E>(items: Seq<Arrival<E>>, j: int, k: int)
    requires
        0 <= j <= k <= items.len(),
        forall|i: int| 0 <= i < j - 1 ==> (#[trigger] items[i]) is Chunk,
        j > 0 ==> items[j - 1] is Chunk,
        forall|i: int| 0 <= i < k - j - 1 ==> (#[trigger] items.skip(j)[i]) is Chunk,
    ensures
        forall|i: int| 0 <= i < k - 1 ==> (#[trigger] items[i]) is Chunk,
{
    assert forall|i: int| 0 <= i < k - 1 implies (#[trigger] items[i]) is Chunk by {
        if i >= j {
            assert(items[i] == items.skip(j)[i - j]);
        }
    }
}

/// What is read of a body behind a piece of it, seen with the piece before it.
proof fn lemma_piece_and_body(
    chunk: Seq<u8>,
    behind: Seq<u8>,
    b: Seq<u8>,
    body: Seq<u8>,
    kept: Seq<u8>,
)
    requires
        is_piece(chunk + behind, b, chunk, Phase::StreamingBody),
    ensures
        body_end(behind, b) is None ==> body_end(chunk + behind, b) is None,
        body_end(behind, b) == Some(body.len() as int) && body == behind.take(body.len() as int)
            ==> {
            let n = (chunk + body).len() as int;
            &&& body_end(chunk + behind, b) == Some(n)
            &&& chunk + body == (chunk + behind).take(n)
            &&& (chunk + behind).skip(n) == behind.skip(body.len() as int)
            &&& occurs_at(chunk + behind, pattern(b), n) <==> occurs_at(
                behind,
                pattern(b),
                body.len() as int,
            )
        },
        body + kept == behind ==> chunk + body + kept == chunk + behind,
{
    let bytes = chunk + behind;
    let n = chunk.len() as int;
    assert(bytes.skip(n) =~= behind);
    lemma_body_end_skip(bytes, b, n);
    lemma_body_end(behind, b);
    assert(chunk + (body + kept) =~= chunk + body + kept);
    if body_end(behind, b) == Some(body.len() as int) && body == behind.take(body.len() as int) {
        let m = n + body.len();
        assert(chunk + behind.take(body.len() as int) =~= bytes.take(m));
        assert(behind.skip(body.len() as int) =~= bytes.skip(m));
        assert(occurs_at(bytes, pattern(b), m) <==> occurs_at(bytes.skip(n), pattern(b), m - n));
    }
}

/// What reading a message says, whatever the stream brings: the parts are those
/// that the bytes hold, each with its headers and its body. Reading is complete
/// only behind the closing boundary; else it stops with the error in the headers
/// of a part, where the stream fails, has ended, or has not brought more yet, and
/// says which.
#[verifier::rlimit(30)]
pub proof fn law_read_parts<E>(m: Model<E>)
    requires
        m.core.phase is Preamble,
    ensures
        ({
            let (parts, end, last) = m.read_all();
            let items = m.feed.items;
            let k = items.len() - last.feed.items.len();
            let said = message(m.core.buf + data_of(items.take(k)), m.core.boundary);
            &&& 0 <= k
            &&& last.feed.items == items.skip(k)
            &&& last.feed.closed == m.feed.closed
            &&& forall|i: int| 0 <= i < k - 1 ==> (#[trigger] items[i]) is Chunk
            &&& parts == said.parts
            &&& match end {
                Reading::Complete => said.ending is Closed,
                Reading::Failed(Error::ParseError(e)) => said.ending == Ending::Malformed(e),
                Reading::Failed(Error::StreamError(e)) => {
                    &&& said.ending is Cut
                    &&& k > 0
                    &&& items[k - 1] == Arrival::Failed(e)
                },
                Reading::Failed(Error::EarlyTerminate) => {
                    &&& said.ending is Cut
                    &&& ended_behind(m, k)
                    &&& k > 0 ==> !(items[k - 1] is Failed)
                },
                Reading::BodyFailed(fields, Error::StreamError(e)) => {
                    &&& said.ending == Ending::CutInBody(fields)
                    &&& k > 0
                    &&& items[k - 1] == Arrival::Failed(e)
                },
                Reading::BodyFailed(fields, Error::EarlyTerminate) => {
                    &&& said.ending == Ending::CutInBody(fields)
                    &&& ended_behind(m, k)
                    &&& k > 0 ==> !(items[k - 1] is Failed)
                },
                Reading::Pending => {
                    &&& said.ending is Cut || said.ending is CutInBody
                    &&& k == items.len()
                    &&& k > 0 ==> items[k - 1] is Chunk
                    &&& !m.feed.closed
                },
                _ => false,
            }
        }),
    decreases m.data().len(),
{
    lemma_poll_part(m);
    law_part_answer(m);
    let items = m.feed.items;
    let b = m.core.boundary;
    let next = m.poll_part().1;
    let j = items.len() - next.feed.items.len();
    let taken = m.core.buf + data_of(items.take(j));
    lemma_next_part_shorter(taken, b);
    if let Poll::Ready(Some(Ok(fields))) = m.poll_part().0 {
        lemma_collect_body(next);
        law_collected_body(next);
        let (bend, body, after) = next.collect_body();
        let i = next.feed.items.len() - after.feed.items.len();
        let behind = next.core.buf + data_of(next.feed.items.take(i));
        assert(after.feed.items =~= items.skip(j + i));
        assert forall|x: int| 0 <= x < j + i - 1 implies (#[trigger] items[x]) is Chunk by {
            if x >= j {
                assert(items[x] == next.feed.items[x - j]);
            }
        }
        if i > 0 {
            assert(items[j + i - 1] == next.feed.items[i - 1]);
        }
        let n = body.len() as int;
        if bend is Complete && occurs_at(behind, pattern(b), n) {
            law_read_parts(after);
            let last = after.read_all().2;
            let x = after.feed.items.len() - last.feed.items.len();
            let tail = after.core.buf + data_of(after.feed.items.take(x));
            let k = j + i + x;
            lemma_said_part(m, fields, next, j, i + x);
            assert(behind =~= body + after.core.buf);
            lemma_body_and_tail(next, body, after, i, x);
            lemma_message_goes_on(
                m.core.buf + data_of(items.take(k)),
                b,
                fields,
                next.core.buf + data_of(next.feed.items.take(i + x)),
                n,
            );
            assert(items.skip(k) =~= last.feed.items);
            assert forall|y: int| 0 <= y < k - 1 implies (#[trigger] items[y]) is Chunk by {
                if y >= j + i {
                    assert(items[y] == after.feed.items[y - j - i]);
                }
            }
            if x > 0 {
                assert(items[k - 1] == after.feed.items[x - 1]);
            }
        } else {
            lemma_said_part(m, fields, next, j, i);
            let whole = m.core.buf + data_of(items.take(j + i));
            lemma_message_stops(whole, b, fields, behind);
            if bend is Complete {
                assert(after.poll_part() == (Poll::Ready(None::<Result<Fields, Error<E>>>), after));
                assert(after.read_all() == (
                    Seq::<(Fields, Seq<u8>)>::empty(),
                    Reading::<E>::Complete,
                    after,
                ));
            }
        }
    }
}

/// A message with one part in front of another.
proof fn lemma_message_goes_on(
    data: Seq<u8>,
    boundary: Seq<u8>,
    fields: Fields,
    rest: Seq<u8>,
    end: int,
)
    requires
        next_part(data, boundary) == Next::Part(fields, rest),
        body_end(rest, boundary) == Some(end),
        occurs_at(rest, pattern(boundary), end),
    ensures
        message(data, boundary).parts == seq![(fields, rest.take(end))] + message(
            rest.skip(end),
            boundary,
        ).parts,
        message(data, boundary).ending == message(rest.skip(end), boundary).ending,
{
    lemma_next_part_shorter(data, boundary);
    lemma_body_end(rest, boundary);
}

/// A message whose first part is its last, or breaks off.
proof fn lemma_message_stops(data: Seq<u8>, boundary: Seq<u8>, fields: Fields, rest: Seq<u8>)
    requires
        next_part(data, boundary) == Next::Part(fields, rest),
    ensures
        body_end(rest, boundary) is None ==> {
            &&& message(data, boundary).parts == Seq::<(Fields, Seq<u8>)>::empty()
            &&& message(data, boundary).ending == Ending::CutInBody(fields)
        },
        body_end(rest, boundary) matches Some(end) && !occurs_at(rest, pattern(boundary), end)
            ==> {
            &&& message(data, boundary).parts == seq![
                (fields, rest.take(body_end(rest, boundary)->0)),
            ]
            &&& message(data, boundary).ending is Closed
        },
{
    let none = Seq::<(Fields, Seq<u8>)>::empty();
    if let Some(end) = body_end(rest, boundary) {
        assert(seq![(fields, rest.take(end))] + none =~= seq![(fields, rest.take(end))]);
    }
}

/// The bytes of a body, and those behind it, with more arrivals.
proof fn lemma_body_and_tail<E>(m: Model<E>, body: Seq<u8>, after: Model<E>, i: int, x: int)
    requires
        0 <= i <= m.feed.items.len(),
        after.feed.items == m.feed.items.skip(i),
        0 <= x <= after.feed.items.len(),
        m.core.buf + data_of(m.feed.items.take(i)) == body + after.core.buf,
        body_end(m.core.buf + data_of(m.feed.items.take(i)), m.core.boundary) == Some(
            body.len() as int,
        ),
        occurs_at(
            m.core.buf + data_of(m.feed.items.take(i)),
            pattern(m.core.boundary),
            body.len() as int,
        ),
    ensures
        ({
            let rest = m.core.buf + data_of(m.feed.items.take(i + x));
            let n = body.len() as int;
            &&& rest.take(n) == body
            &&& rest.skip(n) == after.core.buf + data_of(after.feed.items.take(x))
            &&& body_end(rest, m.core.boundary) == Some(n)
            &&& occurs_at(rest, pattern(m.core.boundary), n)
        }),
{
    let behind = m.core.buf + data_of(m.feed.items.take(i));
    let rest = m.core.buf + data_of(m.feed.items.take(i + x));
    let more = data_of(after.feed.items.take(x));
    let n = body.len() as int;
    lemma_taken_in_turn(m, body, after, i, x);
    lemma_data_split(m.feed.items, i, i + x);
    assert(rest =~= behind + more);
    assert(rest.take(n) =~= body);
    assert(rest.skip(n) =~= after.core.buf + more);
    lemma_body_end_extend(behind, more, m.core.boundary);
}

/// With more arrivals behind those that brought a part, the bytes hold the same
/// part, and more behind it.
proof fn lemma_said_part<E>(m: Model<E>, fields: Fields, next: Model<E>, j: int, n: int)
    requires
        0 <= j <= m.feed.items.len(),
        next.feed.items == m.feed.items.skip(j),
        0 <= n <= next.feed.items.len(),
        next_part(m.core.buf + data_of(m.feed.items.take(j)), m.core.boundary) == Next::Part(
            fields,
            next.core.buf,
        ),
    ensures
        next_part(m.core.buf + data_of(m.feed.items.take(j + n)), m.core.boundary) == Next::Part(
            fields,
            next.core.buf + data_of(next.feed.items.take(n)),
        ),
{
    let taken = m.core.buf + data_of(m.feed.items.take(j));
    let more = data_of(next.feed.items.take(n));
    lemma_data_split(m.feed.items, j, j + n);
    assert(m.core.buf + data_of(m.feed.items.take(j + n)) =~= taken + more);
    lemma_next_part_extend(taken, more, m.core.boundary);
}

/// What a single step towards a part comes to, told from the bytes that are
/// held: the part that they hold is given out, or the error in its headers.
/// Where they hold none, input is asked for, or, behind the end of the stream,
/// it is too early; and what is kept of them holds, with whatever follows, the
/// same as before. An error is come to again.
pub proof fn law_part_step<E>(core: Core, more: Seq<u8>)
    ensures
        ({
            let (step, next) = core.part_step::<E>();
            match core.phase {
                Phase::Finished => step == Step::Return(None::<Result<Fields, Error<E>>>) && next
                    == core,
                Phase::StreamingBody => step == Step::Return(
                    Some(Err::<Fields, Error<E>>(Error::BodyNotConsumed)),
                ) && next == core,
                Phase::BodyEnded(_) => step == Step::Return(
                    Some(Err::<Fields, Error<E>>(Error::BodyNotConsumed)),
                ) && next == core,
                _ => match found(core, core.buf) {
                    Next::Part(fields, rest) => {
                        &&& step == Step::Return(Some(Ok::<_, Error<E>>(fields)))
                        &&& next.buf == rest
                        &&& next.phase is StreamingBody
                        &&& next.boundary == core.boundary
                        &&& next.terminated == core.terminated
                    },
                    Next::Malformed(e) => {
                        &&& step == Step::Return(
                            Some(Err::<Fields, Error<E>>(Error::ParseError(e))),
                        )
                        &&& next.part_step::<E>() == (step, next)
                    },
                    Next::Cut => if core.terminated {
                        &&& step == Step::Return(
                            Some(Err::<Fields, Error<E>>(Error::EarlyTerminate)),
                        )
                        &&& next.part_step::<E>() == (step, next)
                    } else {
                        &&& step is Await
                        &&& next.phase is Preamble || next.phase is ReadingHeaders
                        &&& found(next, next.buf + more) == found(core, core.buf + more)
                        &&& next.boundary == core.boundary
                        &&& !next.terminated
                    },
                },
            }
        }),
{
    lemma_part_step::<E>(core);
    if core.phase is Preamble || core.phase is ReadingHeaders {
        if core.part_step::<E>().0 is Await {
            lemma_part_step_waits::<E>(core, more);
        } else {
            lemma_part_step_says::<E>(core);
            if core.part_step::<E>().0 matches Step::Return(Some(Err(_))) {
                lemma_part_error_again::<E>(core);
            }
        }
    }
}

/// What a single step towards a piece of a body comes to, told from the bytes
/// that are held: where they tell nothing yet, input is asked for, or, behind
/// the end of the stream, it is too early, and nothing changes. Else a piece is
/// handed out, which is the front of the body whatever follows, and no more than
/// the start of a delimiter is kept. Outside of a body there is no piece.
pub proof fn law_body_step<E>(core: Core, more: Seq<u8>)
    ensures
        ({
            let (step, next) = core.body_step::<E>();
            match core.phase {
                Phase::StreamingBody => if tells_nothing(core.buf, core.boundary) {
                    &&& next == core
                    &&& core.terminated ==> step == Step::Return(
                        Some(Err::<Seq<u8>, Error<E>>(Error::EarlyTerminate)),
                    )
                    &&& !core.terminated ==> step is Await
                } else {
                    &&& step matches Step::Return(Some(Ok(chunk)))
                    &&& is_piece(core.buf + more, core.boundary, chunk, next.phase)
                    &&& next.phase is StreamingBody ==> chunk.len() >= 2
                    &&& next.phase is StreamingBody ==> is_start(next.buf, core.boundary)
                    &&& next.phase == Phase::BodyEnded(true) ==> next.buf.len() == 0
                    &&& next.phase != Phase::BodyEnded(true) ==> core.buf == chunk + next.buf
                    &&& next.boundary == core.boundary
                    &&& next.terminated == core.terminated
                },
                Phase::BodyEnded(closed) => {
                    &&& step == Step::Return(None::<Result<Seq<u8>, Error<E>>>)
                    &&& next.buf == core.buf
                    &&& next.boundary == core.boundary
                    &&& next.terminated == core.terminated
                    &&& closed ==> next.phase is Finished
                    &&& !closed ==> next.phase is Preamble
                },
                _ => step == Step::Return(None::<Result<Seq<u8>, Error<E>>>) && next == core,
            }
        }),
{
    if core.phase is StreamingBody {
        lemma_body_step_says::<E>(core, more);
    }
}

/// Reading a body is asking for one piece after the other: a piece goes before
/// what is read behind it, and anything else ends the reading with what it says.
pub proof fn law_collects_piece_by_piece<E>(m: Model<E>)
    ensures
        match m.poll_body().0 {
            Poll::Ready(Some(Ok(chunk))) => {
                let rest = m.poll_body().1.collect_body();
                &&& m.collect_body().0 == rest.0
                &&& m.collect_body().1 == chunk + rest.1
                &&& m.collect_body().2 == rest.2
            },
            Poll::Ready(Some(Err(e))) => {
                &&& m.collect_body().0 == BodyRead::Failed(e)
                &&& m.collect_body().1.len() == 0
                &&& m.collect_body().2 == m.poll_body().1
            },
            Poll::Ready(None) => {
                &&& m.collect_body().0 is Complete
                &&& m.collect_body().1.len() == 0
                &&& m.collect_body().2 == m.poll_body().1
            },
            Poll::Pending => {
                &&& m.collect_body().0 is Pending
                &&& m.collect_body().1.len() == 0
                &&& m.collect_body().2 == m.poll_body().1
            },
        },
{
    lemma_poll_body(m);
}

/// Reading a message is asking for one part after the other, and reading the
/// body of each: a part with its body goes before what is read behind it, and
/// anything else ends the reading with what it says.
pub proof fn law_reads_part_by_part<E>(m: Model<E>)
    ensures
        match m.poll_part().0 {
            Poll::Ready(Some(Ok(fields))) => {
                let (end, body, after) = m.poll_part().1.collect_body();
                match end {
                    BodyRead::Complete => {
                        let rest = after.read_all();
                        &&& m.read_all().0 == seq![(fields, body)] + rest.0
                        &&& m.read_all().1 == rest.1
                        &&& m.read_all().2 == rest.2
                    },
                    BodyRead::Failed(e) => {
                        &&& m.read_all().0.len() == 0
                        &&& m.read_all().1 == Reading::BodyFailed(fields, e)
                        &&& m.read_all().2 == after
                    },
                    BodyRead::Pending => {
                        &&& m.read_all().0.len() == 0
                        &&& m.read_all().1 is Pending
                        &&& m.read_all().2 == after
                    },
                }
            },
            Poll::Ready(Some(Err(e))) => {
                &&& m.read_all().0.len() == 0
                &&& m.read_all().1 == Reading::Failed(e)
                &&& m.read_all().2 == m.poll_part().1
            },
            Poll::Ready(None) => {
                &&& m.read_all().0.len() == 0
                &&& m.read_all().1 is Complete
                &&& m.read_all().2 == m.poll_part().1
            },
            Poll::Pending => {
                &&& m.read_all().0.len() == 0
                &&& m.read_all().1 is Pending
                &&& m.read_all().2 == m.poll_part().1
            },
        },
{
    lemma_poll_part(m);
    lemma_collect_body(m.poll_part().1);
}

} // verus!
