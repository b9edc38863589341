//! What holds of the single poll: which answers are final, what a pause or a
//! failure of the stream costs, and where the bytes go.
use vstd::prelude::*;

use crate::document::next_part;
use crate::error::{Error, ParseError};
use crate::headers::Fields;
use crate::model::{
    lemma_body_step, lemma_part_step, lemma_part_step_again, opening, Core, Model, Phase, Step,
};
use crate::reading::{
    is_piece, lemma_body_step_piece, lemma_data_receive, lemma_part_step_outlook, lemma_poll_body,
    lemma_receive,
};
use crate::search::{find_first, lemma_find_first};
use crate::source::{Arrival, Feed, Poll};

verus! {

/// Behind the last boundary there are neither parts nor pieces of a body, as
/// often as one asks.
pub proof fn law_finished_is_final<E>(m: Model<E>)
    requires
        m.core.phase is Finished,
    ensures
        m.poll_part() == (Poll::Ready(None::<Result<Fields, Error<E>>>), m),
        m.poll_body() == (Poll::Ready(None::<Result<Seq<u8>, Error<E>>>), m),
{
}

/// Until the reader of a body has been told that there is no more of it, the
/// request for the next part is refused, and changes nothing.
pub proof fn law_body_must_be_consumed<E>(m: Model<E>)
    requires
        m.core.phase is StreamingBody || m.core.phase is BodyEnded,
    ensures
        m.poll_part() == (
            Poll::Ready(Some(Err::<Fields, Error<E>>(Error::BodyNotConsumed))),
            m,
        ),
{
}

/// Behind the last piece of a body its reader is told that there is no more,
/// and only that opens the way to the next part, or to the end.
pub proof fn law_end_of_body_is_told<E>(m: Model<E>, closed: bool)
    requires
        m.core.phase == Phase::BodyEnded(closed),
    ensures
        m.poll_body() == (
            Poll::Ready(None::<Result<Seq<u8>, Error<E>>>),
            Model::of(
                m.core.moved(
                    if closed {
                        Phase::Finished
                    } else {
                        Phase::Preamble
                    },
                ),
                m.feed,
            ),
        ),
{
}

/// Where no body is being streamed there are no pieces of one, and to ask for
/// them changes nothing.
pub proof fn law_no_body_between_parts<E>(m: Model<E>)
    requires
        m.core.phase !is StreamingBody,
        m.core.phase !is BodyEnded,
    ensures
        m.poll_body() == (Poll::Ready(None::<Result<Seq<u8>, Error<E>>>), m),
{
}

/// A step towards a part that comes to an error would come to it again.
pub proof fn lemma_part_error_again<E>(core: Core)
    requires
        core.part_step::<E>().0 matches Step::Return(Some(Err(_))),
    ensures
        core.part_step::<E>().1.part_step::<E>() == core.part_step::<E>(),
{
    let line = opening(core.boundary);
    lemma_find_first(core.buf, line);
    if core.phase is Preamble && find_first(core.buf, line) is None {
        let next = core.searched();
        lemma_find_first(next.buf, line);
        assert(next.searched() == next);
    }
}

/// An error in place of a part is final, unless it is the stream's own: the
/// next poll for a part gives the same error, and leaves the state as it is.
pub proof fn law_part_errors_are_final<E>(m: Model<E>)
    requires
        m.poll_part().0 matches Poll::Ready(Some(Err(e))) && e !is StreamError,
    ensures
        m.poll_part().1.poll_part() == m.poll_part(),
    decreases
        m.feed.items.len(),
        (if m.core.terminated {
            0int
        } else {
            1
        }),
{
    lemma_part_step::<E>(m.core);
    let (step, core) = m.core.part_step::<E>();
    match step {
        Step::Return(_) => {
            lemma_part_error_again::<E>(m.core);
        },
        Step::Await => {
            let (arrival, feed) = m.feed.next();
            let arrival = arrival->0;
            law_part_errors_are_final(Model { core: core.receive(arrival), feed });
        },
    }
}

/// An error in place of a piece of a body is final, unless it is the stream's
/// own.
pub proof fn law_body_errors_are_final<E>(m: Model<E>)
    requires
        m.poll_body().0 matches Poll::Ready(Some(Err(e))) && e !is StreamError,
    ensures
        m.poll_body().1.poll_body() == m.poll_body(),
    decreases
        m.feed.items.len(),
        (if m.core.terminated {
            0int
        } else {
            1
        }),
{
    lemma_body_step::<E>(m.core);
    let (step, core) = m.core.body_step::<E>();
    match step {
        Step::Return(_) => {
            assert(core == m.core);
        },
        Step::Await => {
            let (arrival, feed) = m.feed.next();
            let arrival = arrival->0;
            law_body_errors_are_final(Model { core: core.receive(arrival), feed });
        },
    }
}

/// Every search moves forward: no poll for a part reports that it did not.
pub proof fn law_searches_move_forward<E>(m: Model<E>)
    ensures
        m.poll_part().0 != Poll::Ready(
            Some(Err::<Fields, Error<E>>(Error::ParseError(ParseError::BufferNoChange))),
        ),
    decreases
        m.feed.items.len(),
        (if m.core.terminated {
            0int
        } else {
            1
        }),
{
    lemma_part_step::<E>(m.core);
    let (step, core) = m.core.part_step::<E>();
    if step is Await {
        let (arrival, feed) = m.feed.next();
        if let Some(arrival) = arrival {
            if arrival !is Failed {
                law_searches_move_forward(Model { core: core.receive(arrival), feed });
            }
        }
    }
}

/// Of a body nothing is lost and nothing is added: a piece is the front of the
/// bytes that were held or to come, and what is left of them follows it. No
/// piece runs past the end of the body; the last one, and only that, ends there.
/// A piece that is not the last has at least two bytes.
pub proof fn law_body_bytes_are_kept<E>(m: Model<E>)
    ensures
        m.poll_body().0 matches Poll::Ready(Some(Ok(chunk))) ==> {
            let next = m.poll_body().1;
            &&& is_piece(m.data(), m.core.boundary, chunk, next.core.phase)
            &&& next.core.phase is StreamingBody ==> chunk.len() >= 2
            &&& next.core.phase != Phase::BodyEnded(true) ==> next.data() == m.data().skip(
                chunk.len() as int,
            )
        },
    decreases
        m.feed.items.len(),
        (if m.core.terminated {
            0int
        } else {
            1
        }),
{
    lemma_poll_body(m);
    lemma_body_step::<E>(m.core);
    if let Poll::Ready(Some(Ok(chunk))) = m.poll_body().0 {
        if m.poll_body().1.core.phase != Phase::BodyEnded(true) {
            assert(m.poll_body().1.data() =~= m.data().skip(chunk.len() as int));
        }
    }
    let (step, core) = m.core.body_step::<E>();
    match step {
        Step::Return(_) => {
            lemma_body_step_piece(m);
        },
        Step::Await => {
            lemma_data_receive(core, m.feed);
            let (arrival, feed) = m.feed.next();
            if let Some(arrival) = arrival {
                if arrival !is Failed {
                    lemma_receive(core, arrival);
                    law_body_bytes_are_kept(Model { core: core.receive(arrival), feed });
                }
            }
        },
    }
}

/// A part is given out as soon as its boundary line and its header block are
/// there, without a look at the stream.
pub proof fn law_buffered_part_is_given_out<E>(m: Model<E>)
    requires
        m.core.phase is Preamble,
        next_part(m.core.buf, m.core.boundary) is Part,
    ensures
        ({
            let part = next_part(m.core.buf, m.core.boundary);
            &&& m.poll_part().0 == Poll::Ready(Some(Ok::<_, Error<E>>(part->Part_0)))
            &&& m.poll_part().1.core.buf == part->Part_1
            &&& m.poll_part().1.feed == m.feed
        }),
{
}

/// A poll for a part waits only where no part is there: the bytes that were
/// held and in store hold no complete header block.
pub proof fn law_waits_only_for_want_of_bytes<E>(m: Model<E>)
    requires
        m.poll_part().0 is Pending,
    ensures
        m.core.phase is Preamble || m.core.phase is ReadingHeaders,
        m.outlook() is Cut,
    decreases
        m.feed.items.len(),
        (if m.core.terminated {
            0int
        } else {
            1
        }),
{
    lemma_part_step::<E>(m.core);
    let (step, core) = m.core.part_step::<E>();
    lemma_part_step_outlook(m);
    lemma_data_receive(core, m.feed);
    let (arrival, feed) = m.feed.next();
    match arrival {
        None => {
            assert(m.data() =~= m.core.buf);
            lemma_find_first(m.core.buf, opening(m.core.boundary));
        },
        Some(arrival) => {
            lemma_receive(core, arrival);
            let next = Model { core: core.receive(arrival), feed };
            assert(next.data() == Model::of(core, m.feed).data());
            law_waits_only_for_want_of_bytes(next);
        },
    }
}

impl<E> Model<E> {
    /// With more in store behind what is there.
    pub open spec fn extended(self, more: Seq<Arrival<E>>) -> Model<E> {
        Model {
            core: self.core,
            feed: Feed { items: self.feed.items + more, closed: self.feed.closed },
        }
    }

    /// Without the arrival at this place of the store.
    pub open spec fn without(self, at: int) -> Model<E> {
        Model {
            core: self.core,
            feed: Feed { items: self.feed.items.remove(at), closed: self.feed.closed },
        }
    }
}

/// What is read depends on what the first poll for a part gives.
proof fn lemma_same_reading<E>(m: Model<E>, other: Model<E>)
    requires
        m.poll_part() == other.poll_part(),
    ensures
        m.read_all() == other.read_all(),
{
}

/// What is read of a body depends on what the first poll for a piece gives.
proof fn lemma_same_body<E>(m: Model<E>, other: Model<E>)
    requires
        m.poll_body() == other.poll_body(),
    ensures
        m.collect_body() == other.collect_body(),
{
}

/// Where the stream has ended, a poll for a part is answered, and not with a
/// failure of the stream.
proof fn lemma_part_at_the_end<E>(m: Model<E>)
    requires
        m.core.terminated,
    ensures
        m.poll_part().0 is Ready,
        !(m.poll_part().0->Ready_0 matches Some(Err(e)) && e is StreamError),
{
    lemma_part_step::<E>(m.core);
}

/// The same for a poll for a piece of a body.
proof fn lemma_body_at_the_end<E>(m: Model<E>)
    requires
        m.core.terminated,
    ensures
        m.poll_body().0 is Ready,
        !(m.poll_body().0->Ready_0 matches Some(Err(e)) && e is StreamError),
{
    lemma_body_step::<E>(m.core);
}

/// A poll for a part that comes back for want of input is taken up again where
/// it stopped: once more has arrived, the next poll gives what a single one
/// would have given that met all of it.
pub proof fn law_part_poll_is_resumed<E>(m: Model<E>, more: Seq<Arrival<E>>)
    requires
        m.poll_part().0 is Pending,
    ensures
        m.poll_part().1.extended(more).poll_part() == m.extended(more).poll_part(),
        m.poll_part().1.extended(more).read_all() == m.extended(more).read_all(),
    decreases
        m.feed.items.len(),
        (if m.core.terminated {
            0int
        } else {
            1
        }),
{
    lemma_part_step::<E>(m.core);
    let (step, core) = m.core.part_step::<E>();
    lemma_part_step_again::<E>(m.core);
    if m.feed.items.len() == 0 {
        if m.feed.closed {
            lemma_part_at_the_end(Model { core: core.receive(Arrival::<E>::End), feed: m.feed });
        }
        assert(m.feed.items + more =~= more);
    } else {
        let arrival = m.feed.items[0];
        let next = Model { core: core.receive(arrival), feed: m.feed.next().1 };
        let all = m.feed.items + more;
        assert(all.drop_first() =~= m.feed.items.drop_first() + more);
        assert(all[0] == arrival);
        law_part_poll_is_resumed(next, more);
        assert(m.extended(more).poll_part() == next.extended(more).poll_part());
    }
    lemma_same_reading(m.poll_part().1.extended(more), m.extended(more));
}

/// A poll for a piece of a body that comes back for want of input is taken up
/// again where it stopped: once more has arrived, the next poll gives what a
/// single one would have given that met all of it.
pub proof fn law_body_poll_is_resumed<E>(m: Model<E>, more: Seq<Arrival<E>>)
    requires
        m.poll_body().0 is Pending,
    ensures
        m.poll_body().1.extended(more).poll_body() == m.extended(more).poll_body(),
        m.poll_body().1.extended(more).collect_body() == m.extended(more).collect_body(),
    decreases
        m.feed.items.len(),
        (if m.core.terminated {
            0int
        } else {
            1
        }),
{
    lemma_body_step::<E>(m.core);
    let (step, core) = m.core.body_step::<E>();
    if m.feed.items.len() == 0 {
        if m.feed.closed {
            lemma_body_at_the_end(Model { core: core.receive(Arrival::<E>::End), feed: m.feed });
        }
        assert(m.feed.items + more =~= more);
    } else {
        let arrival = m.feed.items[0];
        let next = Model { core: core.receive(arrival), feed: m.feed.next().1 };
        let all = m.feed.items + more;
        assert(all.drop_first() =~= m.feed.items.drop_first() + more);
        assert(all[0] == arrival);
        law_body_poll_is_resumed(next, more);
        assert(m.extended(more).poll_body() == next.extended(more).poll_body());
    }
    lemma_same_body(m.poll_body().1.extended(more), m.extended(more));
}

/// A failure of the stream in the search for a part costs nothing but the poll
/// that reports it: all that is read later is what would have been read had
/// there been no failure.
pub proof fn law_part_survives_a_failure<E>(m: Model<E>)
    requires
        m.poll_part().0 matches Poll::Ready(Some(Err(e))) && e is StreamError,
    ensures
        ({
            let next = m.poll_part().1;
            let at = m.feed.items.len() - next.feed.items.len() - 1;
            &&& 0 <= at < m.feed.items.len()
            &&& m.feed.items[at] is Failed
            &&& m.poll_part().0 == Poll::Ready(
                Some(Err::<Fields, Error<E>>(Error::StreamError(m.feed.items[at]->Failed_0))),
            )
            &&& next.poll_part() == m.without(at).poll_part()
            &&& next.read_all() == m.without(at).read_all()
        }),
    decreases
        m.feed.items.len(),
        (if m.core.terminated {
            0int
        } else {
            1
        }),
{
    lemma_part_step::<E>(m.core);
    let (step, core) = m.core.part_step::<E>();
    lemma_part_step_again::<E>(m.core);
    if m.feed.items.len() == 0 {
        lemma_part_at_the_end(Model { core: core.receive(Arrival::<E>::End), feed: m.feed });
    } else {
        let arrival = m.feed.items[0];
        let rest = m.feed.next().1;
        if arrival is Failed {
            assert(m.feed.items.remove(0) =~= rest.items);
        } else {
            let next = Model { core: core.receive(arrival), feed: rest };
            law_part_survives_a_failure(next);
            let at = m.feed.items.len() - m.poll_part().1.feed.items.len() - 1;
            assert(m.feed.items.remove(at).drop_first() =~= rest.items.remove(at - 1));
            assert(m.feed.items.remove(at)[0] == arrival);
            assert(m.without(at).poll_part() == next.without(at - 1).poll_part());
        }
    }
    let at = m.feed.items.len() - m.poll_part().1.feed.items.len() - 1;
    lemma_same_reading(m.poll_part().1, m.without(at));
}

/// A failure of the stream in the middle of a body costs nothing but the poll
/// that reports it: what is read later of the body is what would have been read
/// had there been no failure.
pub proof fn law_body_survives_a_failure<E>(m: Model<E>)
    requires
        m.poll_body().0 matches Poll::Ready(Some(Err(e))) && e is StreamError,
    ensures
        ({
            let next = m.poll_body().1;
            let at = m.feed.items.len() - next.feed.items.len() - 1;
            &&& 0 <= at < m.feed.items.len()
            &&& m.feed.items[at] is Failed
            &&& m.poll_body().0 == Poll::Ready(
                Some(Err::<Seq<u8>, Error<E>>(Error::StreamError(m.feed.items[at]->Failed_0))),
            )
            &&& next.poll_body() == m.without(at).poll_body()
            &&& next.collect_body() == m.without(at).collect_body()
        }),
    decreases
        m.feed.items.len(),
        (if m.core.terminated {
            0int
        } else {
            1
        }),
{
    lemma_body_step::<E>(m.core);
    let (step, core) = m.core.body_step::<E>();
    if m.feed.items.len() == 0 {
        lemma_body_at_the_end(Model { core: core.receive(Arrival::<E>::End), feed: m.feed });
    } else {
        let arrival = m.feed.items[0];
        let rest = m.feed.next().1;
        if arrival is Failed {
            assert(m.feed.items.remove(0) =~= rest.items);
        } else {
            let next = Model { core: core.receive(arrival), feed: rest };
            law_body_survives_a_failure(next);
            let at = m.feed.items.len() - m.poll_body().1.feed.items.len() - 1;
            assert(m.feed.items.remove(at).drop_first() =~= rest.items.remove(at - 1));
            assert(m.feed.items.remove(at)[0] == arrival);
            assert(m.without(at).poll_body() == next.without(at - 1).poll_body());
        }
    }
    let at = m.feed.items.len() - m.poll_body().1.feed.items.len() - 1;
    lemma_same_body(m.poll_body().1, m.without(at));
}

} // verus!
