//! How many bytes a parser holds: a bound that depends on the boundary, the
//! chunks and the header blocks, and on nothing else.
use vstd::prelude::*;

use crate::conduct::law_finished_is_final;
use crate::document::{body_end, lemma_body_end, lemma_next_part_shorter, next_part, Next};
use crate::model::{
    blank_line, block_end, lemma_body_step, lemma_part_step, lemma_past_look_alikes, mark, opening,
    past_look_alikes, pattern, Core, Model, Phase, Step,
};
use crate::reading::{
    lemma_collect_body, lemma_collect_body_steady, lemma_data_receive, lemma_poll_body,
    lemma_poll_part, lemma_poll_part_steady, lemma_receive, BodyRead,
};
use crate::search::{
    find_first, lemma_clear_extend, lemma_find_first, lemma_find_first_extend,
    lemma_find_first_skip, lemma_occurs_extend, occurs_at,
};
use crate::source::{bytes_of, Poll};

verus! {

/// How many bytes a parser may hold for this boundary, for chunks of at most
/// `size` bytes and header blocks of at most `block`.
pub open spec fn memory_limit(boundary: Seq<u8>, size: nat, block: nat) -> nat {
    pattern(boundary).len() + size + block
}

/// The header block at the start of `data`, if need be a part of one, has at
/// most `block` bytes.
pub open spec fn block_within(data: Seq<u8>, block: nat) -> bool {
    match block_end(data) {
        Some(end) => end <= block,
        None => data.len() <= block,
    }
}

impl Core {
    /// The buffer ends one byte short of telling whether the mark that it
    /// holds ends the body.
    pub open spec fn one_short(self) -> bool {
        find_first(self.buf, mark(self.boundary)) == Some(
            self.buf.len() - mark(self.boundary).len() - 1,
        )
    }

    /// No more than `limit` bytes are held; one more in a body, where that one
    /// is what follows a mark.
    pub open spec fn held_within(self, limit: nat) -> bool {
        ||| self.buf.len() <= limit
        ||| self.phase is StreamingBody && self.buf.len() <= limit + 1 && self.one_short()
    }
}

impl<E> Model<E> {
    /// No chunk in store has more than `size` bytes.
    pub open spec fn chunks_within(self, size: nat) -> bool {
        forall|i: int|
            0 <= i < self.feed.items.len() ==> bytes_of(#[trigger] self.feed.items[i]).len() <= size
    }

    /// The header block that the parser comes to next has at most `block`
    /// bytes.
    pub open spec fn next_block_within(self, block: nat) -> bool {
        match self.core.phase {
            Phase::Preamble => match find_first(self.data(), opening(self.core.boundary)) {
                Some(at) => block_within(
                    self.data().skip(at + opening(self.core.boundary).len()),
                    block,
                ),
                None => true,
            },
            Phase::ReadingHeaders => block_within(self.data(), block),
            _ => true,
        }
    }
}

/// What is left in store has no longer chunks, nor has the one taken from it.
proof fn lemma_chunks_next<E>(m: Model<E>, size: nat)
    requires
        m.chunks_within(size),
    ensures
        m.feed.next().0 matches Some(arrival) ==> bytes_of(arrival).len() <= size,
        forall|core: Core| #[trigger] Model::of(core, m.feed.next().1).chunks_within(size),
{
    let feed = m.feed.next().1;
    if m.feed.items.len() > 0 {
        assert(bytes_of(m.feed.items[0]).len() <= size);
    }
    assert forall|core: Core| #[trigger] Model::of(core, feed).chunks_within(size) by {
        assert forall|i: int| 0 <= i < feed.items.len() implies bytes_of(
            #[trigger] feed.items[i],
        ).len() <= size by {
            if m.feed.items.len() > 0 {
                assert(feed.items[i] == m.feed.items[i + 1]);
            } else {
                assert(feed.items[i] == m.feed.items[i]);
            }
        }
    }
}

/// Where the bytes at hand hold no complete header block, they are fewer than
/// the whole block has.
proof fn lemma_block_incomplete(data: Seq<u8>, more: Seq<u8>, block: nat)
    requires
        block_end(data) is None,
        block_within(data + more, block),
    ensures
        data.len() <= block,
{
    let all = data + more;
    if let Some(end) = block_end(all) {
        if end <= data.len() {
            lemma_find_first(all, blank_line());
            lemma_find_first(data, blank_line());
            if data.len() >= 2 {
                assert(all.take(2) =~= data.take(2));
            }
            lemma_occurs_extend(data, more, blank_line(), end - 4);
        }
    }
}

/// A step that waits for input leaves few bytes behind, and the same header
/// block ahead.
proof fn lemma_part_step_memory<E>(m: Model<E>, block: nat)
    requires
        m.core.part_step::<E>().0 is Await,
        m.next_block_within(block),
    ensures
        Model::of(m.core.part_step::<E>().1, m.feed).next_block_within(block),
        m.core.part_step::<E>().1.buf.len() < pattern(m.core.boundary).len()
            || m.core.part_step::<E>().1.buf.len() <= block,
{
    let core = m.core;
    let line = opening(core.boundary);
    let next = Model::of(core.part_step::<E>().1, m.feed);
    lemma_part_step::<E>(core);
    if core.phase is Preamble {
        lemma_find_first(core.buf, line);
        match find_first(core.buf, line) {
            Some(at) => {
                lemma_find_first_extend(core.buf, m.feed.data(), line);
                assert(next.data() =~= m.data().skip(at + line.len()));
                lemma_block_incomplete(next.core.buf, m.feed.data(), block);
            },
            None => {
                if core.buf.len() >= line.len() {
                    let dropped = core.buf.len() - line.len() + 1;
                    assert(next.data() =~= m.data().skip(dropped));
                    lemma_clear_extend(core.buf, m.feed.data(), line, dropped);
                    lemma_find_first_skip(m.data(), line, dropped);
                    if let Some(at) = find_first(next.data(), line) {
                        lemma_find_first(next.data(), line);
                        assert(next.data().skip(at + line.len()) =~= m.data().skip(
                            dropped + at + line.len(),
                        ));
                    }
                }
            },
        }
    } else {
        lemma_block_incomplete(core.buf, m.feed.data(), block);
    }
}

/// The memory that the search for a part takes is bounded by the boundary, the
/// chunks and the header block, however long the message and its preamble are:
/// a poll for a part keeps the number of bytes that are held within the limit.
pub proof fn law_part_memory_is_bounded<E>(m: Model<E>, size: nat, block: nat)
    requires
        m.chunks_within(size),
        m.next_block_within(block),
        m.core.held_within(memory_limit(m.core.boundary, size, block)),
    ensures
        m.poll_part().1.chunks_within(size),
        m.poll_part().1.core.held_within(memory_limit(m.core.boundary, size, block)),
    decreases
        m.feed.items.len(),
        (if m.core.terminated {
            0int
        } else {
            1
        }),
{
    lemma_part_step::<E>(m.core);
    let (step, core) = m.core.part_step::<E>();
    if step is Await {
        lemma_part_step_memory(m, block);
        lemma_chunks_next(m, size);
        let (arrival, feed) = m.feed.next();
        assert(Model::of(core, feed).chunks_within(size));
        if let Some(arrival) = arrival {
            if arrival !is Failed {
                lemma_data_receive(core, m.feed);
                lemma_receive(core, arrival);
                let next = Model::of(core.receive(arrival), feed);
                assert(next.data() == Model::of(core, m.feed).data());
                law_part_memory_is_bounded(next, size, block);
            }
        }
    }
}

/// The memory that a body takes is bounded in the same way, however long it is:
/// a poll for a piece of it keeps the number of bytes that are held within the
/// limit, and no piece is longer than that and one more chunk.
pub proof fn law_body_memory_is_bounded<E>(m: Model<E>, size: nat, block: nat)
    requires
        m.chunks_within(size),
        m.core.held_within(memory_limit(m.core.boundary, size, block)),
    ensures
        m.poll_body().1.chunks_within(size),
        m.poll_body().1.core.held_within(memory_limit(m.core.boundary, size, block)),
        m.poll_body().0 matches Poll::Ready(Some(Ok(chunk))) ==> chunk.len() <= memory_limit(
            m.core.boundary,
            size,
            block,
        ) + size + 1,
    decreases
        m.feed.items.len(),
        (if m.core.terminated {
            0int
        } else {
            1
        }),
{
    let b = m.core.boundary;
    let limit = memory_limit(b, size, block);
    lemma_body_step::<E>(m.core);
    let (step, core) = m.core.body_step::<E>();
    lemma_find_first(m.core.buf, mark(b));
    lemma_past_look_alikes(m.core.buf, mark(b));
    if step is Await {
        lemma_chunks_next(m, size);
        let (arrival, feed) = m.feed.next();
        assert(Model::of(core, feed).chunks_within(size));
        if let Some(arrival) = arrival {
            if arrival !is Failed {
                lemma_receive(core, arrival);
                let next = Model::of(core.receive(arrival), feed);
                let more = bytes_of(arrival);
                if m.core.buf.len() < pattern(b).len() {
                    law_body_memory_is_bounded(next, size, block);
                } else {
                    // A mark stands at the end of the buffer.
                    lemma_find_first_extend(m.core.buf, more, mark(b));
                    let start = find_first(m.core.buf, mark(b))->0;
                    if next.core.buf.len() < start + mark(b).len() + 2 {
                        law_body_memory_is_bounded(next, size, block);
                    } else {
                        lemma_body_step::<E>(next.core);
                        lemma_past_look_alikes(next.core.buf, mark(b));
                        assert(next.core.body_step::<E>().0 is Return);
                        assert(next.core.body_step::<E>().1.buf.len() <= limit);
                    }
                }
            }
        }
    }
}

/// Behind a piece of a body that is not its last, only what may be the start of
/// a delimiter is held: fewer bytes than a mark has, or a mark, with one byte
/// behind it at the most. All else has been handed out, whatever the size of the
/// body and of its chunks, and however many look-alikes it holds.
pub proof fn law_body_window<E>(m: Model<E>)
    ensures
        m.poll_body().0 matches Poll::Ready(Some(Ok(_)))
            && m.poll_body().1.core.phase is StreamingBody ==> {
            let held = m.poll_body().1.core.buf;
            ||| held.len() <= m.core.boundary.len() + 4
            ||| held.len() == m.core.boundary.len() + 5 && held.take(
                mark(m.core.boundary).len() as int,
            ) == mark(m.core.boundary)
        },
    decreases
        m.feed.items.len(),
        (if m.core.terminated {
            0int
        } else {
            1
        }),
{
    let b = m.core.boundary;
    let buf = m.core.buf;
    lemma_body_step::<E>(m.core);
    let (step, core) = m.core.body_step::<E>();
    match step {
        Step::Return(_) => {
            lemma_past_look_alikes(buf, mark(b));
            if let Some(end) = past_look_alikes(buf, mark(b)) {
                assert(buf.skip(end).take(mark(b).len() as int) =~= buf.subrange(
                    end,
                    end + mark(b).len(),
                ));
            }
        },
        Step::Await => {
            let (arrival, feed) = m.feed.next();
            if let Some(arrival) = arrival {
                if arrival !is Failed {
                    lemma_receive(core, arrival);
                    law_body_window(Model { core: core.receive(arrival), feed });
                }
            }
        },
    }
}

/// A parser holds nothing at first, and what is within the limit is at most one
/// byte more than it.
pub proof fn law_memory_limit(core: Core, boundary: Seq<u8>, limit: nat)
    ensures
        Core::start(boundary).held_within(limit),
        core.held_within(limit) ==> core.buf.len() <= limit + 1,
{
}

/// Every header block of the message that `data` holds has at most `block`
/// bytes.
pub open spec fn blocks_within(data: Seq<u8>, boundary: Seq<u8>, block: nat) -> bool
    decreases data.len(),
{
    proof {
        lemma_next_part_shorter(data, boundary);
    }
    match find_first(data, opening(boundary)) {
        None => true,
        Some(at) => {
            &&& block_within(data.skip(at + opening(boundary).len()), block)
            &&& match next_part(data, boundary) {
                Next::Part(_, rest) => match body_end(rest, boundary) {
                    Some(end) => {
                        proof {
                            lemma_body_end(rest, boundary);
                        }
                        occurs_at(rest, pattern(boundary), end) ==> blocks_within(
                            rest.skip(end),
                            boundary,
                            block,
                        )
                    },
                    None => true,
                },
                _ => true,
            }
        },
    }
}

impl<E> Model<E> {
    /// Whenever a poll for a piece of the body returns, until there is no more,
    /// the bytes that are held are within the limit.
    pub open spec fn body_stays_within(self, limit: nat) -> bool
        decreases self.weight(),
    {
        proof {
            lemma_poll_body(self);
        }
        let next = self.poll_body().1;
        &&& next.core.held_within(limit)
        &&& self.poll_body().0 matches Poll::Ready(Some(Ok(_))) ==> next.body_stays_within(limit)
    }

    /// Whenever a poll returns while the message is read part after part, each
    /// with its body, the bytes that are held are within the limit.
    pub open spec fn stays_within(self, limit: nat) -> bool
        decreases self.data().len(),
    {
        proof {
            lemma_poll_part(self);
            lemma_collect_body(self.poll_part().1);
        }
        let next = self.poll_part().1;
        &&& next.core.held_within(limit)
        &&& self.poll_part().0 matches Poll::Ready(Some(Ok(_))) ==> {
            &&& next.body_stays_within(limit)
            &&& match next.collect_body() {
                (BodyRead::Complete, _, after) => after.stays_within(limit),
                _ => true,
            }
        }
    }
}

/// Reading a body stays within the limit.
proof fn lemma_body_stays_within<E>(m: Model<E>, size: nat, block: nat)
    requires
        m.chunks_within(size),
        m.core.held_within(memory_limit(m.core.boundary, size, block)),
    ensures
        m.body_stays_within(memory_limit(m.core.boundary, size, block)),
        m.collect_body().2.chunks_within(size),
        m.collect_body().2.core.held_within(memory_limit(m.core.boundary, size, block)),
    decreases m.weight(),
{
    lemma_poll_body(m);
    law_body_memory_is_bounded(m, size, block);
    if let (Poll::Ready(Some(Ok(_))), next) = m.poll_body() {
        lemma_body_stays_within(next, size, block);
    }
}

/// While a message is read, the parser never holds more than the boundary, a
/// chunk and a header block make up, however long the message, its preamble and
/// its bodies are, and however many parts it has.
pub proof fn law_memory_is_bounded<E>(m: Model<E>, size: nat, block: nat)
    requires
        m.steady(),
        m.core.phase is Preamble,
        m.chunks_within(size),
        m.core.held_within(memory_limit(m.core.boundary, size, block)),
        blocks_within(m.data(), m.core.boundary, block),
    ensures
        m.stays_within(memory_limit(m.core.boundary, size, block)),
    decreases m.data().len(),
{
    let b = m.core.boundary;
    let limit = memory_limit(b, size, block);
    lemma_poll_part(m);
    lemma_poll_part_steady(m);
    lemma_next_part_shorter(m.data(), b);
    law_part_memory_is_bounded(m, size, block);
    if let Next::Part(_, rest) = next_part(m.data(), b) {
        let next = m.poll_part().1;
        lemma_collect_body(next);
        lemma_collect_body_steady(next);
        lemma_body_stays_within(next, size, block);
        lemma_body_end(rest, b);
        if let Some(end) = body_end(rest, b) {
            let after = next.collect_body().2;
            if occurs_at(rest, pattern(b), end) {
                law_memory_is_bounded(after, size, block);
            } else {
                law_finished_is_final(after);
                assert(after.stays_within(limit));
            }
        }
    }
}

} // verus!
