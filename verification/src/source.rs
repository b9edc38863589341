//! The byte stream that a parser reads from, as the queue of what polling it
//! has produced so far.
use bytes::Bytes;
use std::collections::VecDeque;
use vstd::prelude::*;
use vstd::slice::slice_subrange;

use crate::buffer::{bytes_content, chunk_of};

verus! {

/// The answer to a poll: a value, or the news that there is none yet.
#[derive(Debug)]
pub enum Poll<T> {
    Ready(T),
    Pending,
}

/// One thing that polling a byte stream can bring.
#[derive(Debug)]
pub enum Incoming<E> {
    /// More bytes.
    Chunk(Bytes),
    /// The stream failed.
    Failed(E),
    /// The stream has ended.
    End,
}

/// An `Incoming` with its bytes as a sequence.
pub enum Arrival<E> {
    Chunk(Seq<u8>),
    Failed(E),
    End,
}

impl<E> View for Incoming<E> {
    type V = Arrival<E>;

    open spec fn view(&self) -> Arrival<E> {
        match *self {
            Incoming::Chunk(bytes) => Arrival::Chunk(bytes_content(bytes)),
            Incoming::Failed(e) => Arrival::Failed(e),
            Incoming::End => Arrival::End,
        }
    }
}

/// What a stream has in store: what has arrived and was not read yet, and
/// whether the end is all that comes after it.
pub struct Feed<E> {
    pub items: Seq<Arrival<E>>,
    pub closed: bool,
}

impl<E> Feed<E> {
    /// What the next poll brings, `None` when nothing has arrived; and what is
    /// left in store.
    pub open spec fn next(self) -> (Option<Arrival<E>>, Feed<E>) {
        if self.items.len() > 0 {
            (
                Some(self.items[0]),
                Feed { items: self.items.drop_first(), closed: self.closed },
            )
        } else if self.closed {
            (Some(Arrival::End), self)
        } else {
            (None, self)
        }
    }

    /// The bytes in store, without regard to where the chunks part.
    pub open spec fn data(self) -> Seq<u8> {
        data_of(self.items)
    }
}

/// The bytes that an arrival brings.
pub open spec fn bytes_of<E>(item: Arrival<E>) -> Seq<u8> {
    match item {
        Arrival::Chunk(bytes) => bytes,
        _ => Seq::empty(),
    }
}

/// The bytes of a list of arrivals, one behind the other.
pub open spec fn data_of<E>(items: Seq<Arrival<E>>) -> Seq<u8>
    decreases items.len(),
{
    if items.len() == 0 {
        Seq::empty()
    } else {
        bytes_of(items[0]) + data_of(items.drop_first())
    }
}

/// The bytes of one more arrival come last.
pub proof fn lemma_data_push<E>(items: Seq<Arrival<E>>, item: Arrival<E>)
    ensures
        data_of(items.push(item)) == data_of(items) + bytes_of(item),
    decreases items.len(),
{
    if items.len() == 0 {
        assert(items.push(item).drop_first() =~= items);
        assert(data_of(items) =~= Seq::empty());
        assert(data_of(items.push(item)) =~= data_of(items) + bytes_of(item));
    } else {
        assert(items.push(item).drop_first() =~= items.drop_first().push(item));
        lemma_data_push(items.drop_first(), item);
        assert(data_of(items.push(item)) =~= data_of(items) + bytes_of(item));
    }
}

/// A byte stream whose arrivals have been put in a queue. While the queue is
/// empty a poll is pending; once the source is closed it reports the end, as
/// often as it is polled.
pub struct ChunkSource<E> {
    items: VecDeque<Incoming<E>>,
    closed: bool,
}

impl<E> View for ChunkSource<E> {
    type V = Feed<E>;

    closed spec fn view(&self) -> Feed<E> {
        Feed { items: self.items@.map_values(|item: Incoming<E>| item@), closed: self.closed }
    }
}

impl<E> ChunkSource<E> {
    /// A source that nothing has reached yet.
    pub fn new() -> (source: Self)
        ensures
            source@.items == Seq::<Arrival<E>>::empty(),
            !source@.closed,
    {
        let source = ChunkSource { items: VecDeque::new(), closed: false };
        proof {
            assert(source@.items =~= Seq::<Arrival<E>>::empty());
        }
        source
    }

    /// Queues one arrival.
    pub fn push(&mut self, item: Incoming<E>)
        ensures
            final(self)@.items == old(self)@.items.push(item@),
            final(self)@.closed == old(self)@.closed,
            final(self)@.data() == old(self)@.data() + bytes_of(item@),
    {
        self.items.push_back(item);
        proof {
            assert(self@.items =~= old(self)@.items.push(item@));
            lemma_data_push(old(self)@.items, item@);
        }
    }

    /// Declares that nothing but the end comes after what has been queued.
    pub fn close(&mut self)
        ensures
            final(self)@.items == old(self)@.items,
            final(self)@.closed,
    {
        self.closed = true;
    }

    /// Takes the next arrival.
    pub fn poll_next(&mut self) -> (polled: Poll<Incoming<E>>)
        ensures
            final(self)@ == old(self)@.next().1,
            match polled {
                Poll::Ready(item) => old(self)@.next().0 == Some(item@),
                Poll::Pending => old(self)@.next().0 is None,
            },
    {
        match self.items.pop_front() {
            Some(item) => {
                proof {
                    assert(self@.items =~= old(self)@.items.drop_first());
                }
                Poll::Ready(item)
            },
            None => if self.closed {
                Poll::Ready(Incoming::End)
            } else {
                Poll::Pending
            },
        }
    }
}

/// `data` cut into pieces of `size` bytes, the last one as long as is left.
pub open spec fn pieces(data: Seq<u8>, size: nat) -> Seq<Seq<u8>>
    recommends
        size > 0,
    decreases data.len(),
{
    if data.len() == 0 || size == 0 {
        Seq::empty()
    } else if data.len() <= size {
        seq![data]
    } else {
        seq![data.take(size as int)] + pieces(data.skip(size as int), size)
    }
}

/// Each byte string as a chunk that arrived.
pub open spec fn as_chunks<E>(pieces: Seq<Seq<u8>>) -> Seq<Arrival<E>> {
    pieces.map_values(|piece: Seq<u8>| Arrival::<E>::Chunk(piece))
}

proof fn lemma_pieces_last(data: Seq<u8>, size: nat)
    requires
        size > 0,
        data.len() > 0,
    ensures
        pieces(data, size) == seq![
            data.take(
                if data.len() <= size {
                    data.len() as int
                } else {
                    size as int
                },
            ),
        ] + pieces(
            data.skip(
                if data.len() <= size {
                    data.len() as int
                } else {
                    size as int
                },
            ),
            size,
        ),
{
    if data.len() <= size {
        assert(data.take(data.len() as int) =~= data);
        assert(pieces(data.skip(data.len() as int), size) =~= Seq::empty());
        assert(seq![data] + Seq::<Seq<u8>>::empty() =~= seq![data]);
    }
}

/// Cutting loses no bytes, and the pieces come as chunks.
pub proof fn lemma_pieces_data<E>(data: Seq<u8>, size: nat)
    requires
        size > 0,
    ensures
        data_of(as_chunks::<E>(pieces(data, size))) == data,
        forall|i: int|
            0 <= i < as_chunks::<E>(pieces(data, size)).len() ==> (#[trigger] as_chunks::<E>(
                pieces(data, size),
            )[i]) is Chunk,
    decreases data.len(),
{
    let all = as_chunks::<E>(pieces(data, size));
    if data.len() == 0 {
        assert(data_of(all) =~= data);
    } else if data.len() <= size {
        assert(all.drop_first() =~= Seq::empty());
        assert(data_of(all.drop_first()) =~= Seq::<u8>::empty());
        assert(data_of(all) =~= data);
    } else {
        let rest = data.skip(size as int);
        lemma_pieces_data::<E>(rest, size);
        assert(all.drop_first() =~= as_chunks::<E>(pieces(rest, size)));
        assert(all[0] == Arrival::<E>::Chunk(data.take(size as int)));
        assert(data_of(all) =~= data);
    }
}

/// A closed source that brings `data` in chunks of `chunk_size` bytes, the
/// last one as long as is left.
pub fn create_stream_from_chunks<E>(data: &[u8], chunk_size: usize) -> (source: ChunkSource<E>)
    requires
        chunk_size > 0,
    ensures
        source@.items == as_chunks::<E>(pieces(data@, chunk_size as nat)),
        source@.closed,
        source@.data() == data@,
{
    let mut source = ChunkSource::<E>::new();
    let mut start: usize = 0;
    proof {
        assert(data@.skip(0) =~= data@);
        assert(source@.items + as_chunks::<E>(pieces(data@, chunk_size as nat)) =~= as_chunks::<E>(
            pieces(data@, chunk_size as nat),
        ));
        assert(data@.take(0) =~= Seq::empty());
    }
    while start < data.len()
        invariant
            chunk_size > 0,
            start <= data@.len(),
            !source@.closed,
            source@.data() == data@.take(start as int),
            source@.items + as_chunks::<E>(pieces(data@.skip(start as int), chunk_size as nat))
                == as_chunks::<E>(pieces(data@, chunk_size as nat)),
        decreases data@.len() - start,
    {
        let left: usize = data.len() - start;
        let take: usize = if left <= chunk_size {
            left
        } else {
            chunk_size
        };
        let chunk = chunk_of(slice_subrange(data, start, start + take));
        let ghost before = source@;
        source.push(Incoming::Chunk(chunk));
        proof {
            let rest = data@.skip(start as int);
            lemma_pieces_last(rest, chunk_size as nat);
            assert(rest.take(take as int) =~= data@.subrange(start as int, start + take));
            assert(rest.skip(take as int) =~= data@.skip(start + take));
            assert(data@.take(start as int) + data@.subrange(start as int, start + take)
                =~= data@.take(start + take));
            assert(source@.items + as_chunks::<E>(
                pieces(data@.skip(start + take), chunk_size as nat),
            ) =~= before.items + as_chunks::<E>(pieces(rest, chunk_size as nat)));
        }
        start = start + take;
    }
    proof {
        assert(as_chunks::<E>(pieces(data@.skip(start as int), chunk_size as nat))
            =~= Seq::empty());
        assert(source@.items + Seq::<Arrival<E>>::empty() =~= source@.items);
        assert(data@.take(start as int) =~= data@);
    }
    source.close();
    source
}

} // verus!
