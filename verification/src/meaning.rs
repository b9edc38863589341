//! What the words of the contracts mean, byte by byte.
use bytes::Bytes;
use vstd::prelude::*;

use crate::buffer::bytes_content;
use crate::document::{
    body_end, closing, contents, ends_at, form_contents, form_texts, lemma_body_end, lemma_ends_at,
    lemma_next_part_shorter, message, next_part, part_headed, plain_boundary, plain_part, writable,
    Ending, FormPart, Next, PartText,
};
use crate::error::{Error, ParseError};
use crate::headers::{
    block_headers, header_block, law_header_block_is_read_back, plain_rows, Fields,
};
use crate::laws::{cut, reported};
use crate::model::{
    blank_line, block_end, crlf, hyphens, mark, opening, pattern, Core, Model, Phase,
};
use crate::reading::{is_piece, Reading};
use crate::search::{find_first, lemma_find_first, lemma_find_first_is, occurs_at};
use crate::source::{as_chunks, bytes_of, data_of, pieces, Arrival, Feed, Incoming};

verus! {

/// The bytes of the delimiters.
pub proof fn law_delimiters(boundary: Seq<u8>)
    ensures
        crlf() == seq![13u8, 10u8],
        hyphens() == seq![45u8, 45u8],
        blank_line() == seq![13u8, 10u8, 13u8, 10u8],
        opening(boundary) == seq![45u8, 45u8] + boundary + seq![13u8, 10u8],
        mark(boundary) == seq![13u8, 10u8, 45u8, 45u8] + boundary,
        pattern(boundary) == seq![13u8, 10u8, 45u8, 45u8] + boundary + seq![13u8, 10u8],
        closing(boundary) == seq![13u8, 10u8, 45u8, 45u8] + boundary + seq![45u8, 45u8],
{
    assert(mark(boundary) =~= seq![13u8, 10u8, 45u8, 45u8] + boundary);
    assert(pattern(boundary) =~= seq![13u8, 10u8, 45u8, 45u8] + boundary + seq![13u8, 10u8]);
    assert(closing(boundary) =~= seq![13u8, 10u8, 45u8, 45u8] + boundary + seq![45u8, 45u8]);
}

/// A text stands where its bytes stand, one after the other, and is found where
/// it stands first.
pub proof fn law_occurrence(hay: Seq<u8>, needle: Seq<u8>, at: int)
    ensures
        occurs_at(hay, needle, at) <==> {
            &&& 0 <= at
            &&& at + needle.len() <= hay.len()
            &&& forall|i: int| 0 <= i < needle.len() ==> hay[at + i] == #[trigger] needle[i]
        },
        find_first(hay, needle) == Some(at) <==> {
            &&& occurs_at(hay, needle, at)
            &&& forall|j: int| 0 <= j < at ==> !#[trigger] occurs_at(hay, needle, j)
        },
        find_first(hay, needle) is None <==> forall|j: int| !#[trigger] occurs_at(hay, needle, j),
{
    if 0 <= at && at + needle.len() <= hay.len() {
        let window = hay.subrange(at, at + needle.len());
        assert forall|i: int| 0 <= i < needle.len() implies window[i] == hay[at + i] by {}
        if occurs_at(hay, needle, at) {
            assert forall|i: int| 0 <= i < needle.len() implies hay[at + i]
                == #[trigger] needle[i] by {
                assert(window[i] == needle[i]);
            }
        }
        if forall|i: int| 0 <= i < needle.len() ==> hay[at + i] == #[trigger] needle[i] {
            assert(window =~= needle);
        }
    }
    lemma_find_first(hay, needle);
    if occurs_at(hay, needle, at) && (forall|j: int|
        0 <= j < at ==> !#[trigger] occurs_at(hay, needle, j)) {
        lemma_find_first_is(hay, needle, at);
    }
}

/// The bytes at `at` are the end of a line and an empty line.
pub open spec fn two_line_ends_at(data: Seq<u8>, at: int) -> bool {
    &&& 0 <= at
    &&& at + 4 <= data.len()
    &&& data[at] == 13 && data[at + 1] == 10 && data[at + 2] == 13 && data[at + 3] == 10
}

/// A header block without fields is the end of a line; any other goes up to the
/// first empty line.
pub proof fn law_block_end(data: Seq<u8>, end: int)
    ensures
        block_end(data) == Some(end) <==> if data.len() >= 2 && data[0] == 13 && data[1] == 10 {
            end == 2
        } else {
            &&& two_line_ends_at(data, end - 4)
            &&& forall|j: int| 0 <= j < end - 4 ==> !#[trigger] two_line_ends_at(data, j)
        },
        block_end(data) is None <==> {
            &&& !(data.len() >= 2 && data[0] == 13 && data[1] == 10)
            &&& forall|j: int| !#[trigger] two_line_ends_at(data, j)
        },
{
    if data.len() >= 2 {
        assert(data.take(2)[0] == data[0] && data.take(2)[1] == data[1]);
        if data[0] == 13 && data[1] == 10 {
            assert(data.take(2) =~= crlf());
        }
    }
    assert forall|j: int| occurs_at(data, blank_line(), j) <==> #[trigger] two_line_ends_at(
        data,
        j,
    ) by {
        if 0 <= j && j + 4 <= data.len() {
            let window = data.subrange(j, j + 4);
            assert(window[0] == data[j] && window[1] == data[j + 1] && window[2] == data[j + 2]
                && window[3] == data[j + 3]);
            if two_line_ends_at(data, j) {
                assert(window =~= blank_line());
            }
        }
    }
    assert forall|j: int| two_line_ends_at(data, j) <==> #[trigger] occurs_at(
        data,
        blank_line(),
        j,
    ) by {}
    law_occurrence(data, blank_line(), end - 4);
    lemma_find_first(data, blank_line());
}

/// A part is opened by the first boundary line; its headers are those of the
/// header block behind it, and its body what follows the block. Without a
/// boundary line, or without the end of the block, there is none.
pub proof fn law_next_part(data: Seq<u8>, boundary: Seq<u8>, at: int, end: int)
    ensures
        occurs_at(data, opening(boundary), at) && (forall|j: int|
            0 <= j < at ==> !#[trigger] occurs_at(data, opening(boundary), j)) ==> next_part(
            data,
            boundary,
        ) == part_headed(data.skip(at + boundary.len() + 4)),
        (forall|j: int| !#[trigger] occurs_at(data, opening(boundary), j)) ==> next_part(
            data,
            boundary,
        ) is Cut,
        block_end(data) is None ==> part_headed(data) is Cut,
        block_end(data) == Some(end) ==> match block_headers(data.take(end)) {
            Ok(fields) => part_headed(data) == Next::Part(fields, data.skip(end)),
            Err(e) => part_headed(data) == Next::Malformed(e),
        },
{
    law_occurrence(data, opening(boundary), at);
}

/// A body ends where the end of a line, two hyphens and the boundary stand, and
/// the end of a line or two hyphens behind them; at the first such place.
pub proof fn law_body_end(data: Seq<u8>, boundary: Seq<u8>, end: int)
    ensures
        ends_at(data, boundary, end) <==> {
            let tail = end + boundary.len() + 4;
            &&& occurs_at(data, seq![13u8, 10u8, 45u8, 45u8] + boundary, end)
            &&& tail + 2 <= data.len()
            &&& (data[tail] == 13 && data[tail + 1] == 10) || (data[tail] == 45 && data[tail + 1]
                == 45)
        },
        body_end(data, boundary) == Some(end) <==> {
            &&& ends_at(data, boundary, end)
            &&& forall|j: int| 0 <= j < end ==> !#[trigger] ends_at(data, boundary, j)
        },
        body_end(data, boundary) is None <==> forall|j: int| !#[trigger] ends_at(data, boundary, j),
{
    law_delimiters(boundary);
    let tail = end + mark(boundary).len();
    lemma_ends_at(data, boundary, end);
    if 0 <= end && tail + 2 <= data.len() {
        let behind = data.subrange(tail, tail + 2);
        assert(behind[0] == data[tail] && behind[1] == data[tail + 1]);
        if behind[0] == 13 && behind[1] == 10 {
            assert(behind =~= crlf());
        }
        if behind[0] == 45 && behind[1] == 45 {
            assert(behind =~= hyphens());
        }
    }
    lemma_body_end(data, boundary);
    if ends_at(data, boundary, end) && (forall|j: int|
        0 <= j < end ==> !#[trigger] ends_at(data, boundary, j)) {
        assert(body_end(data, boundary) is Some);
        let other = body_end(data, boundary)->0;
        assert(ends_at(data, boundary, other));
        assert(0 <= other && 0 <= end) by {
            lemma_ends_at(data, boundary, end);
        }
    }
}

/// What a message says, part by part.
pub proof fn law_message(data: Seq<u8>, boundary: Seq<u8>)
    ensures
        match next_part(data, boundary) {
            Next::Cut => {
                &&& message(data, boundary).parts == Seq::<(Fields, Seq<u8>)>::empty()
                &&& message(data, boundary).ending is Cut
            },
            Next::Malformed(e) => {
                &&& message(data, boundary).parts == Seq::<(Fields, Seq<u8>)>::empty()
                &&& message(data, boundary).ending == Ending::Malformed(e)
            },
            Next::Part(fields, rest) => match body_end(rest, boundary) {
                None => {
                    &&& message(data, boundary).parts == Seq::<(Fields, Seq<u8>)>::empty()
                    &&& message(data, boundary).ending == Ending::CutInBody(fields)
                },
                Some(end) => if rest[end + boundary.len() + 4] == 13 {
                    let others = message(rest.skip(end), boundary);
                    &&& message(data, boundary).parts == seq![(fields, rest.take(end))]
                        + others.parts
                    &&& message(data, boundary).ending == others.ending
                } else {
                    &&& message(data, boundary).parts == seq![(fields, rest.take(end))]
                    &&& message(data, boundary).ending is Closed
                },
            },
        },
{
    lemma_next_part_shorter(data, boundary);
    if let Next::Part(fields, rest) = next_part(data, boundary) {
        lemma_body_end(rest, boundary);
        if let Some(end) = body_end(rest, boundary) {
            let tail = end + mark(boundary).len();
            lemma_ends_at(rest, boundary, end);
            let behind = rest.subrange(tail, tail + 2);
            assert(behind[0] == rest[tail]);
            assert(crlf()[0] == 13 && hyphens()[0] == 45);
            assert(seq![(fields, rest.take(end))] + Seq::<(Fields, Seq<u8>)>::empty() =~= seq![
                (fields, rest.take(end)),
            ]);
        }
    }
}

/// The bytes of arrivals are those of their chunks, one behind the other;
/// failures and the end bring none.
pub proof fn law_arrivals<E>(items: Seq<Arrival<E>>, more: Seq<Arrival<E>>, bytes: Seq<u8>, e: E)
    ensures
        data_of(items + more) == data_of(items) + data_of(more),
        data_of(Seq::<Arrival<E>>::empty()) == Seq::<u8>::empty(),
        data_of(seq![Arrival::<E>::Chunk(bytes)]) == bytes,
        data_of(seq![Arrival::<E>::Failed(e)]) == Seq::<u8>::empty(),
        data_of(seq![Arrival::<E>::End]) == Seq::<u8>::empty(),
        bytes_of(Arrival::<E>::Chunk(bytes)) == bytes,
        bytes_of(Arrival::<E>::Failed(e)) == Seq::<u8>::empty(),
        bytes_of(Arrival::<E>::End) == Seq::<u8>::empty(),
    decreases items.len(),
{
    let none = Seq::<Arrival<E>>::empty();
    assert(data_of(none) =~= Seq::<u8>::empty());
    assert(seq![Arrival::<E>::Chunk(bytes)].drop_first() =~= none);
    assert(seq![Arrival::<E>::Failed(e)].drop_first() =~= none);
    assert(seq![Arrival::<E>::End].drop_first() =~= none);
    assert(bytes + Seq::<u8>::empty() =~= bytes);
    assert(Seq::<u8>::empty() + Seq::<u8>::empty() =~= Seq::<u8>::empty());
    if items.len() == 0 {
        assert(items + more =~= more);
        assert(data_of(items) + data_of(more) =~= data_of(more));
    } else {
        assert((items + more).drop_first() =~= items.drop_first() + more);
        law_arrivals(items.drop_first(), more, bytes, e);
        assert(data_of(items + more) =~= data_of(items) + data_of(more));
    }
}

/// A stream gives its arrivals in order, then its end, as often as it is asked,
/// if it is closed, and nothing yet if it is not.
pub proof fn law_feed<E>(feed: Feed<E>)
    ensures
        feed.items.len() > 0 ==> feed.next().0 == Some(feed.items[0]),
        feed.items.len() > 0 ==> feed.next().1.items == feed.items.skip(1),
        feed.next().1.closed == feed.closed,
        feed.items.len() == 0 ==> feed.next().1 == feed,
        feed.items.len() == 0 && feed.closed ==> feed.next().0 == Some(Arrival::<E>::End),
        feed.items.len() == 0 && !feed.closed ==> (feed.next().0 is None),
        feed.data() == data_of(feed.items),
{
    if feed.items.len() > 0 {
        assert(feed.items.drop_first() =~= feed.items.skip(1));
    }
}

/// A chunk that arrives is an arrival of its bytes, and a failure or the end is
/// one too.
pub proof fn law_incoming<E>(chunk: Bytes, e: E)
    ensures
        Incoming::<E>::Chunk(chunk)@ == Arrival::<E>::Chunk(bytes_content(chunk)),
        Incoming::<E>::Failed(e)@ == Arrival::<E>::Failed(e),
        Incoming::<E>::End@ == Arrival::<E>::End,
{
}

/// A parser starts with its boundary and no bytes, before the first part.
/// Chunks put their bytes behind those that are held, the end is remembered,
/// and a failure changes nothing.
pub proof fn law_receive<E>(core: Core, boundary: Seq<u8>, bytes: Seq<u8>, e: E)
    ensures
        Core::start(boundary).boundary == boundary,
        Core::start(boundary).buf == Seq::<u8>::empty(),
        Core::start(boundary).phase == Phase::Preamble,
        !Core::start(boundary).terminated,
        core.receive(Arrival::<E>::Chunk(bytes)).buf == core.buf + bytes,
        core.receive(Arrival::<E>::Chunk(bytes)).terminated == core.terminated,
        core.receive(Arrival::<E>::Chunk(bytes)).boundary == core.boundary,
        core.receive(Arrival::<E>::Chunk(bytes)).phase == core.phase,
        core.receive(Arrival::<E>::Failed(e)) == core,
        core.receive(Arrival::<E>::End).buf == core.buf,
        core.receive(Arrival::<E>::End).terminated,
        core.receive(Arrival::<E>::End).boundary == core.boundary,
        core.receive(Arrival::<E>::End).phase == core.phase,
{
}

/// What is held comes before what is to come; and a stream is steady if it
/// brings chunks only, and then its end.
pub proof fn law_model<E>(m: Model<E>)
    ensures
        m.data() == m.core.buf + data_of(m.feed.items),
        m.steady() <==> {
            &&& m.feed.closed
            &&& forall|i: int|
                0 <= i < m.feed.items.len() ==> (#[trigger] m.feed.items[i]) is Chunk
            &&& m.core.terminated ==> m.feed.items.len() == 0
        },
{
}

/// The chunks of a message that is cut to size: each has that size, but for the
/// last, which has what is left.
pub proof fn law_pieces<E>(data: Seq<u8>, size: nat, i: int)
    requires
        size > 0,
    ensures
        pieces(data, size).len() * size >= data.len(),
        data.len() > 0 ==> (pieces(data, size).len() - 1) * size < data.len(),
        data.len() == 0 ==> pieces(data, size).len() == 0,
        as_chunks::<E>(pieces(data, size)).len() == pieces(data, size).len(),
        0 <= i < pieces(data, size).len() ==> {
            let end = if (i + 1) * size <= data.len() {
                (i + 1) * size
            } else {
                data.len() as int
            };
            &&& pieces(data, size)[i] == data.subrange(i * size, end)
            &&& as_chunks::<E>(pieces(data, size))[i] == Arrival::<E>::Chunk(pieces(data, size)[i])
        },
    decreases data.len(),
{
    let all = pieces(data, size);
    if data.len() == 0 {
    } else if data.len() <= size {
        assert(1 * size == size) by (nonlinear_arith);
        assert(0 * size == 0) by (nonlinear_arith);
        assert(all.len() == 1);
        if i == 0 {
            assert(data.subrange(0, data.len() as int) =~= data);
        }
    } else {
        let rest = data.skip(size as int);
        law_pieces::<E>(rest, size, i - 1);
        let n = pieces(rest, size).len();
        assert(all.len() == n + 1);
        assert((n + 1) * size == n * size + size) by (nonlinear_arith);
        assert((n + 1 - 1) * size == (n - 1) * size + size) by (nonlinear_arith);
        assert((i + 1) * size == i * size + size) by (nonlinear_arith);
        assert(((i - 1) + 1) * size == i * size);
        assert((i - 1) * size == i * size - size) by (nonlinear_arith);
        assert(1 * size == size) by (nonlinear_arith);
        assert(0 * size == 0) by (nonlinear_arith);
        if i == 0 {
            assert(data.subrange(0, size as int) =~= data.take(size as int));
        } else if 0 < i < all.len() {
            assert(all[i] == pieces(rest, size)[i - 1]);
            assert((i - 1) * size >= 0) by (nonlinear_arith)
                requires
                    i >= 1,
            ;
            let end = if i * size <= rest.len() {
                i * size
            } else {
                rest.len() as int
            };
            assert((i - 1) * size <= rest.len()) by (nonlinear_arith)
                requires
                    i - 1 <= n - 1,
                    (n - 1) * size < rest.len(),
            ;
            assert((i - 1) * size <= i * size) by (nonlinear_arith);
            assert(rest.subrange((i - 1) * size, end) =~= data.subrange(
                i * size,
                end + size,
            ));
        }
    }
}

/// What a piece of a body is: the front of the bytes, which runs past no end of
/// the body; and the last one ends with it, and says which delimiter follows.
pub proof fn law_piece(data: Seq<u8>, boundary: Seq<u8>, chunk: Seq<u8>, rest: Seq<u8>)
    requires
        data == chunk + rest,
    ensures
        is_piece(data, boundary, chunk, Phase::StreamingBody) <==> forall|j: int|
            0 <= j < chunk.len() ==> !#[trigger] ends_at(data, boundary, j),
        is_piece(data, boundary, chunk, Phase::BodyEnded(false)) <==> {
            &&& body_end(data, boundary) == Some(chunk.len() as int)
            &&& data[chunk.len() as int + boundary.len() + 4] == 13
        },
        is_piece(data, boundary, chunk, Phase::BodyEnded(true)) <==> {
            &&& body_end(data, boundary) == Some(chunk.len() as int)
            &&& data[chunk.len() as int + boundary.len() + 4] == 45
        },
        !is_piece(data, boundary, chunk, Phase::Preamble),
        !is_piece(data, boundary, chunk, Phase::ReadingHeaders),
        !is_piece(data, boundary, chunk, Phase::Finished),
{
    let n = chunk.len() as int;
    assert(data.take(n) =~= chunk);
    law_body_end(data, boundary, n);
    lemma_body_end(data, boundary);
    lemma_ends_at(data, boundary, n);
    let tail = n + mark(boundary).len();
    if body_end(data, boundary) == Some(n) {
        let behind = data.subrange(tail, tail + 2);
        assert(behind[0] == data[tail] && behind[1] == data[tail + 1]);
        assert(crlf()[0] == 13 && hyphens()[0] == 45);
    }
}

/// How a reader learns of the end of a message, and of what the bytes at the
/// start of reading are.
pub proof fn law_reported<E>(
    fields: Fields,
    e: ParseError,
    data: Seq<u8>,
    boundary: Seq<u8>,
    size: nat,
)
    ensures
        reported::<E>(Ending::Closed) is Complete,
        reported::<E>(Ending::Cut) == Reading::Failed(Error::<E>::EarlyTerminate),
        reported::<E>(Ending::CutInBody(fields)) == Reading::BodyFailed(
            fields,
            Error::<E>::EarlyTerminate,
        ),
        reported::<E>(Ending::Malformed(e)) == Reading::Failed(Error::<E>::ParseError(e)),
        cut::<E>(data, boundary, size).core == Core::start(boundary),
        cut::<E>(data, boundary, size).feed.items == as_chunks::<E>(pieces(data, size)),
        cut::<E>(data, boundary, size).feed.closed,
{
}

/// What parts hold that were written: the headers of their blocks, and their
/// bodies; those of a form have the headers of their rows.
pub proof fn law_contents(parts: Seq<PartText>, form: Seq<FormPart>, i: int)
    ensures
        contents(parts).len() == parts.len(),
        0 <= i < parts.len() && block_headers(parts[i].0) is Ok ==> {
            &&& block_headers(parts[i].0) == Ok::<_, ParseError>(contents(parts)[i].0)
            &&& contents(parts)[i].1 == parts[i].1
        },
        form_texts(form).len() == form.len(),
        form_contents(form).len() == form.len(),
        0 <= i < form.len() ==> {
            &&& form_texts(form)[i].0 == header_block(form[i].0)
            &&& form_texts(form)[i].1 == form[i].1
            &&& form_contents(form)[i].1 == form[i].1
        },
        0 <= i < form.len() && plain_rows(form[i].0) && form[i].0.len() <= 64 ==> block_headers(
            header_block(form[i].0),
        ) == Ok::<_, ParseError>(form_contents(form)[i].0),
{
    if 0 <= i < form.len() && plain_rows(form[i].0) && form[i].0.len() <= 64 {
        law_header_block_is_read_back(form[i].0);
    }
}

/// Which parts can be written: their header block ends where it should, and no
/// delimiter stands in their body, nor comes about where it meets what follows.
pub proof fn law_writable(part: PartText, form: FormPart, boundary: Seq<u8>)
    ensures
        plain_boundary(boundary) <==> !boundary.contains(13),
        writable(part, boundary) <==> {
            &&& block_end(part.0) == Some(part.0.len() as int)
            &&& block_headers(part.0) is Ok
            &&& body_end(
                part.1 + (seq![13u8, 10u8, 45u8, 45u8] + boundary + seq![13u8, 10u8]),
                boundary,
            ) == Some(part.1.len() as int)
            &&& body_end(
                part.1 + (seq![13u8, 10u8, 45u8, 45u8] + boundary + seq![45u8, 45u8]),
                boundary,
            ) == Some(part.1.len() as int)
        },
        plain_part(form, boundary) <==> {
            &&& form.0.len() <= 64
            &&& plain_rows(form.0)
            &&& body_end(form.1 + seq![13u8, 10u8], boundary) is None
        },
{
    law_delimiters(boundary);
    if boundary.contains(13) {
        let i = choose|i: int| 0 <= i < boundary.len() && boundary[i] == 13;
        assert(boundary[i] == 13);
    }
    if !plain_boundary(boundary) {
        let i = choose|i: int| 0 <= i < boundary.len() && boundary[i] == 13;
        assert(boundary.contains(boundary[i]));
    }
}

} // verus!
