//! What holds of the parser as a whole.
use vstd::prelude::*;

use crate::document::{
    body_end, closing, contents, ends_at, form_contents, form_texts, lemma_body_end,
    lemma_body_end_extend, lemma_body_end_is, lemma_ends_at, lemma_next_part_shorter, message,
    next_part, part_headed, plain_boundary, plain_part, writable, written, written_behind, Ending,
    FormPart, Message, Next, PartText,
};
use crate::error::{Error, ParseError};
use crate::headers::{
    block_headers, header_block, law_header_block_is_read_back, law_too_many_headers_are_refused,
    lemma_block_ends_once, no_fields, plain_rows, Fields, Row, MAX_HEADERS,
};
use crate::model::{
    block_end, crlf, hyphens, lemma_block_end, mark, opening, pattern, Core, Model,
};
use crate::reading::{
    lemma_collect_body, lemma_collect_body_steady, lemma_poll_part, lemma_poll_part_steady, Reading,
};
use crate::search::{
    absent, find_first, lemma_find_first_extend, lemma_find_first_is, lemma_occurs_extend,
    occurs_at,
};
use crate::source::{as_chunks, lemma_pieces_data, pieces, Feed, Poll};

verus! {

/// How a reader learns of the way in which a message ends.
pub open spec fn reported<E>(ending: Ending) -> Reading<E> {
    match ending {
        Ending::Closed => Reading::Complete,
        Ending::Cut => Reading::Failed(Error::EarlyTerminate),
        Ending::CutInBody(fields) => Reading::BodyFailed(fields, Error::EarlyTerminate),
        Ending::Malformed(e) => Reading::Failed(Error::ParseError(e)),
    }
}

/// Reading a message through the parser, from chunks that may part anywhere,
/// gives the parts that its bytes hold, each with its headers and its body, and
/// ends as the message does.
pub proof fn law_reads_the_message<E>(m: Model<E>)
    requires
        m.steady(),
        m.core.phase is Preamble,
    ensures
        m.read_all().0 == message(m.data(), m.core.boundary).parts,
        m.read_all().1 == reported::<E>(message(m.data(), m.core.boundary).ending),
    decreases m.data().len(),
{
    let b = m.core.boundary;
    lemma_poll_part(m);
    lemma_poll_part_steady(m);
    lemma_next_part_shorter(m.data(), b);
    if let Next::Part(fields, rest) = next_part(m.data(), b) {
        let next = m.poll_part().1;
        lemma_collect_body(next);
        lemma_collect_body_steady(next);
        lemma_body_end(rest, b);
        if let Some(end) = body_end(rest, b) {
            let after = next.collect_body().2;
            assert(m.read_all().0 == seq![(fields, rest.take(end))] + after.read_all().0);
            assert(m.read_all().1 == after.read_all().1);
            if occurs_at(rest, pattern(b), end) {
                law_reads_the_message(after);
                assert(message(m.data(), b) == message(rest.skip(end), b).after(
                    fields,
                    rest.take(end),
                ));
            } else {
                assert(after.poll_part() == (
                    Poll::Ready(None::<Result<Fields, Error<E>>>),
                    after,
                ));
                assert(after.read_all().0 == Seq::<(Fields, Seq<u8>)>::empty());
                assert(message(m.data(), b) == Message::ends(Ending::Closed).after(
                    fields,
                    rest.take(end),
                ));
            }
        }
    }
}

/// How the bytes of a message are cut into chunks makes no difference to what
/// is read.
pub proof fn law_chunking_does_not_matter<E>(m: Model<E>, other: Model<E>)
    requires
        m.steady(),
        other.steady(),
        m.core.phase is Preamble,
        other.core.phase is Preamble,
        m.core.boundary == other.core.boundary,
        m.data() == other.data(),
    ensures
        m.read_all().0 == other.read_all().0,
        m.read_all().1 == other.read_all().1,
{
    law_reads_the_message(m);
    law_reads_the_message(other);
}

/// A message in chunks of one size, at the start of reading it.
pub open spec fn cut<E>(data: Seq<u8>, boundary: Seq<u8>, size: nat) -> Model<E> {
    Model {
        core: Core::start(boundary),
        feed: Feed { items: as_chunks::<E>(pieces(data, size)), closed: true },
    }
}

/// A message is read the same way in chunks of any size: what is read is what
/// its bytes say.
pub proof fn law_chunk_size_does_not_matter<E>(data: Seq<u8>, boundary: Seq<u8>, size: nat)
    requires
        size > 0,
    ensures
        cut::<E>(data, boundary, size).read_all().0 == message(data, boundary).parts,
        cut::<E>(data, boundary, size).read_all().1 == reported::<E>(
            message(data, boundary).ending,
        ),
{
    let m = cut::<E>(data, boundary, size);
    lemma_pieces_data::<E>(data, size);
    assert(m.data() =~= data);
    law_reads_the_message(m);
}

/// Behind the end of a line, the first boundary line is found right there.
proof fn lemma_opening_behind_crlf(boundary: Seq<u8>)
    ensures
        find_first(crlf() + opening(boundary), opening(boundary)) == Some(2int),
{
    let line = opening(boundary);
    let text = crlf() + line;
    assert(text.subrange(2, 2 + line.len() as int) =~= line);
    assert forall|j: int| 0 <= j < 2 implies !#[trigger] occurs_at(text, line, j) by {
        if occurs_at(text, line, j) {
            assert(text.subrange(j, j + line.len())[0] == text[j]);
            assert(line[0] == 45);
        }
    }
    lemma_find_first_is(text, line, 2);
}

/// A boundary line and a header block open a part.
proof fn lemma_part_opened(preamble: Seq<u8>, block: Seq<u8>, rest: Seq<u8>, boundary: Seq<u8>)
    requires
        find_first(preamble + opening(boundary), opening(boundary)) == Some(preamble.len() as int),
        block_end(block) == Some(block.len() as int),
        block_headers(block) is Ok,
    ensures
        next_part((preamble + opening(boundary)) + (block + rest), boundary) == Next::Part(
            block_headers(block)->Ok_0,
            rest,
        ),
{
    let line = opening(boundary);
    let data = (preamble + line) + (block + rest);
    lemma_find_first_extend(preamble + line, block + rest, line);
    assert(data.skip(preamble.len() as int + line.len()) =~= block + rest);
    lemma_block_end(block, rest);
    assert(block.take(block.len() as int) =~= block);
    assert(block.skip(block.len() as int) + rest =~= rest);
}

/// A mark behind a body ends it, with an end of line or two hyphens behind it.
proof fn lemma_body_ended(body: Seq<u8>, behind: Seq<u8>, boundary: Seq<u8>)
    requires
        body_end(body + pattern(boundary), boundary) == Some(body.len() as int),
        body_end(body + closing(boundary), boundary) == Some(body.len() as int),
        behind.len() >= 2,
        behind.take(2) == crlf() || behind.take(2) == hyphens(),
    ensures
        body_end((body + mark(boundary)) + behind, boundary) == Some(body.len() as int),
        occurs_at((body + mark(boundary)) + behind, pattern(boundary), body.len() as int)
            <==> behind.take(2) == crlf(),
{
    let m = mark(boundary);
    lemma_mark_and_tail(boundary);
    lemma_tail_behind(body, m, behind);
    lemma_ended_by(body, behind.take(2), boundary);
    lemma_body_end_extend(body + (m + behind.take(2)), behind.skip(2), boundary);
}

/// The two bytes behind the mark say whether another part follows.
proof fn lemma_ended_by(body: Seq<u8>, tail: Seq<u8>, boundary: Seq<u8>)
    requires
        tail == crlf() || tail == hyphens(),
    ensures
        occurs_at(body + (mark(boundary) + tail), pattern(boundary), body.len() as int) <==> tail
            == crlf(),
{
    lemma_mark_behind_body(body, mark(boundary), tail);
    lemma_ends_at(body + (mark(boundary) + tail), boundary, body.len() as int);
}

/// What ends a body is a mark and two bytes.
proof fn lemma_mark_and_tail(boundary: Seq<u8>)
    ensures
        pattern(boundary) == mark(boundary) + crlf(),
        closing(boundary) == mark(boundary) + hyphens(),
{
    assert(pattern(boundary) =~= mark(boundary) + crlf());
}

/// The first two bytes behind a mark, in two groupings.
proof fn lemma_tail_behind(body: Seq<u8>, m: Seq<u8>, behind: Seq<u8>)
    requires
        behind.len() >= 2,
    ensures
        (body + (m + behind.take(2))) + behind.skip(2) == (body + m) + behind,
{
    assert((body + (m + behind.take(2))) + behind.skip(2) =~= (body + m) + behind);
}

/// What is written behind a boundary starts with an end of line, if parts
/// follow, and else with two hyphens.
proof fn lemma_written_behind(parts: Seq<PartText>, boundary: Seq<u8>, epilogue: Seq<u8>)
    ensures
        written_behind(parts, boundary, epilogue).len() >= 2,
        written_behind(parts, boundary, epilogue).take(2) == if parts.len() > 0 {
            crlf()
        } else {
            hyphens()
        },
{
    let behind = written_behind(parts, boundary, epilogue);
    if parts.len() > 0 {
        assert(behind.take(2) =~= crlf());
    } else {
        assert(behind.take(2) =~= hyphens());
    }
}

/// The same bytes, in two groupings.
proof fn lemma_regroup(
    p: Seq<u8>,
    h: Seq<u8>,
    b: Seq<u8>,
    c: Seq<u8>,
    block: Seq<u8>,
    body: Seq<u8>,
    m: Seq<u8>,
    w: Seq<u8>,
)
    ensures
        p + h + b + (c + block + body + m + w) == (p + (h + b + c)) + (block + ((body + m) + w)),
{
    let left = p + h + b + (c + block + body + m + w);
    let right = (p + (h + b + c)) + (block + ((body + m) + w));
    assert(left =~= right);
}

/// What follows a body is the mark behind it and what follows that.
proof fn lemma_behind_body(body: Seq<u8>, c: Seq<u8>, h: Seq<u8>, b: Seq<u8>, w: Seq<u8>)
    ensures
        ((body + (c + h + b)) + w).take(body.len() as int) == body,
        ((body + (c + h + b)) + w).skip(body.len() as int) == c + h + b + w,
{
    assert(((body + (c + h + b)) + w).take(body.len() as int) =~= body);
    assert(((body + (c + h + b)) + w).skip(body.len() as int) =~= c + h + b + w);
}

/// The part at the front of a written message.
proof fn lemma_written_front(
    preamble: Seq<u8>,
    parts: Seq<PartText>,
    boundary: Seq<u8>,
    epilogue: Seq<u8>,
)
    requires
        parts.len() > 0,
        find_first(preamble + opening(boundary), opening(boundary)) == Some(preamble.len() as int),
        writable(parts[0], boundary),
    ensures
        ({
            let rest = (parts[0].1 + mark(boundary)) + written_behind(
                parts.drop_first(),
                boundary,
                epilogue,
            );
            let end = parts[0].1.len() as int;
            &&& next_part(written(preamble, parts, boundary, epilogue), boundary) == Next::Part(
                block_headers(parts[0].0)->Ok_0,
                rest,
            )
            &&& body_end(rest, boundary) == Some(end)
            &&& occurs_at(rest, pattern(boundary), end) <==> parts.len() > 1
            &&& rest.take(end) == parts[0].1
            &&& parts.len() > 1 ==> rest.skip(end) == written(
                crlf(),
                parts.drop_first(),
                boundary,
                epilogue,
            )
        }),
{
    let (block, body) = parts[0];
    let others = parts.drop_first();
    let behind = written_behind(others, boundary, epilogue);
    let rest = (body + mark(boundary)) + behind;
    lemma_regroup(
        preamble,
        hyphens(),
        boundary,
        crlf(),
        block,
        body,
        mark(boundary),
        behind,
    );
    lemma_part_opened(preamble, block, rest, boundary);
    lemma_written_behind(others, boundary, epilogue);
    assert(crlf()[0] != hyphens()[0]);
    lemma_body_ended(body, behind, boundary);
    lemma_behind_body(body, crlf(), hyphens(), boundary, behind);
}

/// A written message says what was written: its parts are those that it was
/// written with, and it is closed.
pub proof fn law_written_message_is_read_back(
    preamble: Seq<u8>,
    parts: Seq<PartText>,
    boundary: Seq<u8>,
    epilogue: Seq<u8>,
)
    requires
        parts.len() > 0,
        find_first(preamble + opening(boundary), opening(boundary)) == Some(preamble.len() as int),
        forall|i: int| 0 <= i < parts.len() ==> writable(#[trigger] parts[i], boundary),
    ensures
        message(written(preamble, parts, boundary, epilogue), boundary).parts == contents(parts),
        message(written(preamble, parts, boundary, epilogue), boundary).ending is Closed,
    decreases parts.len(),
{
    let data = written(preamble, parts, boundary, epilogue);
    let others = parts.drop_first();
    lemma_written_front(preamble, parts, boundary, epilogue);
    lemma_next_part_shorter(data, boundary);
    let fields = block_headers(parts[0].0)->Ok_0;
    if others.len() > 0 {
        lemma_opening_behind_crlf(boundary);
        assert forall|i: int| 0 <= i < others.len() implies writable(
            #[trigger] others[i],
            boundary,
        ) by {
            assert(others[i] == parts[i + 1]);
        }
        law_written_message_is_read_back(crlf(), others, boundary, epilogue);
        assert(seq![(fields, parts[0].1)] + contents(others) =~= contents(parts));
    } else {
        assert(message(data, boundary) == Message::ends(Ending::Closed).after(
            fields,
            parts[0].1,
        ));
        assert(seq![(fields, parts[0].1)] + Seq::<(Fields, Seq<u8>)>::empty() =~= contents(parts));
    }
}

/// A needle that ends with two bytes of which the first does not come earlier in
/// it, and the second is not its first byte: behind a text without it, it is
/// first found where it was put.
proof fn lemma_last_bytes_unique(text: Seq<u8>, needle: Seq<u8>)
    requires
        needle.len() > 2,
        forall|i: int|
            0 <= i < needle.len() - 2 ==> #[trigger] needle[i] != needle[needle.len() - 2],
        needle[0] != needle.last(),
        absent(text, needle),
    ensures
        find_first(text + needle, needle) == Some(text.len() as int),
{
    let whole = text + needle;
    let end = text.len() as int;
    let n = needle.len() as int;
    assert(whole.subrange(end, end + n) =~= needle);
    assert forall|j: int| 0 <= j < end implies !#[trigger] occurs_at(whole, needle, j) by {
        lemma_occurs_extend(text, needle, needle, j);
        if occurs_at(whole, needle, j) {
            assert(end < j + n);
            let window = whole.subrange(j, j + n);
            assert(window[n - 2] == whole[j + n - 2] && window[n - 1] == whole[j + n - 1]);
            if end <= j + n - 2 {
                assert(whole[j + n - 2] == needle[j + n - 2 - end]);
            } else {
                assert(whole[j + n - 1] == needle[0]);
            }
        }
    }
    lemma_find_first_is(whole, needle, end);
}

/// The end of a line behind a body is what a mark behind it starts with.
proof fn lemma_crlf_of_mark(body: Seq<u8>, m: Seq<u8>, tail: Seq<u8>)
    requires
        m.len() >= 2,
        m.take(2) == crlf(),
    ensures
        body + crlf() == (body + (m + tail)).take(body.len() as int + 2),
        (body + (m + tail))[body.len() as int] == 13,
{
    assert(m.take(2)[0] == m[0] && m.take(2)[1] == m[1]);
    assert(body + crlf() =~= (body + (m + tail)).take(body.len() as int + 2));
}

/// A mark that starts in a body with another one behind it lies in the body,
/// and the two bytes behind it lie there too, or in the end of line that the
/// other one starts with.
proof fn lemma_mark_in_body(body: Seq<u8>, m: Seq<u8>, tail: Seq<u8>, at: int)
    requires
        m.len() >= 2,
        m.take(2) == crlf(),
        forall|i: int| 0 < i < m.len() ==> #[trigger] m[i] != 13,
        tail.len() == 2,
        0 <= at < body.len(),
        (body + (m + tail)).subrange(at, at + m.len()) == m,
    ensures
        at + m.len() <= body.len(),
        (body + crlf()).subrange(at, at + m.len()) == m,
        (body + crlf()).subrange(at + m.len(), at + m.len() + 2) == (body + (m + tail)).subrange(
            at + m.len(),
            at + m.len() + 2,
        ),
{
    let text = body + (m + tail);
    let n = m.len() as int;
    let end = body.len() as int;
    lemma_crlf_of_mark(body, m, tail);
    if end < at + n {
        assert(text.subrange(at, at + n)[end - at] == text[end]);
    }
    lemma_subrange_of_front(text, end + 2, at, at + n);
    lemma_subrange_of_front(text, end + 2, at + n, at + n + 2);
}

/// A stretch of the front of a text.
proof fn lemma_subrange_of_front(text: Seq<u8>, n: int, from: int, to: int)
    requires
        0 <= from <= to <= n <= text.len(),
    ensures
        text.take(n).subrange(from, to) == text.subrange(from, to),
{
    assert(text.take(n).subrange(from, to) =~= text.subrange(from, to));
}

/// Where a text stands in the middle of another.
proof fn lemma_mark_behind_body(body: Seq<u8>, m: Seq<u8>, tail: Seq<u8>)
    ensures
        (body + (m + tail)).subrange(body.len() as int, (body.len() + m.len()) as int) == m,
        (body + (m + tail)).subrange(
            (body.len() + m.len()) as int,
            (body.len() + m.len() + tail.len()) as int,
        ) == tail,
{
    assert((body + (m + tail)).subrange(body.len() as int, (body.len() + m.len()) as int) =~= m);
    assert((body + (m + tail)).subrange(
        (body.len() + m.len()) as int,
        (body.len() + m.len() + tail.len()) as int,
    ) =~= tail);
}

/// A mark starts with the end of a line, and holds no other.
proof fn lemma_mark_bytes(boundary: Seq<u8>)
    requires
        plain_boundary(boundary),
    ensures
        mark(boundary).len() == boundary.len() + 4,
        mark(boundary).take(2) == crlf(),
        forall|i: int| 0 < i < mark(boundary).len() ==> #[trigger] mark(boundary)[i] != 13,
{
    let m = mark(boundary);
    assert(m.take(2) =~= crlf());
    assert forall|i: int| 0 < i < m.len() implies #[trigger] m[i] != 13 by {
        if i >= 4 {
            assert(m[i] == boundary[i - 4]);
        }
    }
}

/// A body that holds nothing that ends it ends with the mark behind it.
proof fn lemma_plain_body(body: Seq<u8>, tail: Seq<u8>, boundary: Seq<u8>)
    requires
        plain_boundary(boundary),
        body_end(body + crlf(), boundary) is None,
        tail == crlf() || tail == hyphens(),
    ensures
        body_end(body + (mark(boundary) + tail), boundary) == Some(body.len() as int),
{
    let m = mark(boundary);
    let end = body.len() as int;
    let front = body + crlf();
    let text = body + (m + tail);
    lemma_mark_bytes(boundary);
    lemma_body_end(front, boundary);
    lemma_mark_behind_body(body, m, tail);
    lemma_ends_at(text, boundary, end);
    assert forall|j: int| 0 <= j < end implies !#[trigger] ends_at(text, boundary, j) by {
        if ends_at(text, boundary, j) {
            lemma_ends_at(text, boundary, j);
            lemma_mark_in_body(body, m, tail, j);
            lemma_ends_at(front, boundary, j);
            assert(ends_at(front, boundary, j));
        }
    }
    lemma_body_end_is(text, boundary, end);
}

/// Such a body can be written before either kind of boundary.
pub proof fn lemma_body_writable(body: Seq<u8>, boundary: Seq<u8>)
    requires
        plain_boundary(boundary),
        body_end(body + crlf(), boundary) is None,
    ensures
        body_end(body + pattern(boundary), boundary) == Some(body.len() as int),
        body_end(body + closing(boundary), boundary) == Some(body.len() as int),
{
    lemma_mark_and_tail(boundary);
    lemma_plain_body(body, crlf(), boundary);
    lemma_plain_body(body, hyphens(), boundary);
}

/// A preamble without a boundary line, and one behind it: the first boundary
/// line is that one.
pub proof fn lemma_plain_preamble(preamble: Seq<u8>, boundary: Seq<u8>)
    requires
        plain_boundary(boundary),
        absent(preamble, opening(boundary)),
    ensures
        find_first(preamble + opening(boundary), opening(boundary)) == Some(preamble.len() as int),
{
    let line = opening(boundary);
    let n = line.len() as int;
    assert(line[n - 2] == 13 && line[n - 1] == 10);
    assert(line[0] == 45);
    assert forall|i: int| 0 <= i < n - 2 implies #[trigger] line[i] != line[n - 2] by {
        if i >= 2 {
            assert(line[i] == boundary[i - 2]);
        }
    }
    lemma_last_bytes_unique(preamble, line);
}

/// The round trip: a message that was written is read back through the parser
/// part by part, headers and bodies as they were written, and then there are no
/// more parts, however its bytes are cut into chunks.
pub proof fn law_round_trip<E>(
    m: Model<E>,
    preamble: Seq<u8>,
    parts: Seq<PartText>,
    boundary: Seq<u8>,
    epilogue: Seq<u8>,
)
    requires
        m.core == Core::start(boundary),
        m.steady(),
        m.feed.data() == written(preamble, parts, boundary, epilogue),
        parts.len() > 0,
        find_first(preamble + opening(boundary), opening(boundary)) == Some(preamble.len() as int),
        forall|i: int| 0 <= i < parts.len() ==> writable(#[trigger] parts[i], boundary),
    ensures
        m.read_all().0 == contents(parts),
        m.read_all().1 is Complete,
{
    law_written_message_is_read_back(preamble, parts, boundary, epilogue);
    assert(m.data() =~= m.feed.data());
    law_reads_the_message(m);
}

/// A part without header fields is a part: behind its boundary line comes the
/// empty line, and then its body.
pub proof fn law_part_without_headers(rest: Seq<u8>)
    ensures
        part_headed(crlf() + rest) == Next::Part(no_fields(), rest),
{
    let rows = Seq::<Row>::empty();
    law_header_block_is_read_back(rows);
    lemma_block_ends_once(rows);
    lemma_block_end(crlf(), rest);
    assert(crlf().take(2) =~= crlf());
    assert(crlf().skip(2) + rest =~= rest);
}

/// A part with more header fields than a part may carry is refused.
pub proof fn law_part_with_too_many_headers(rows: Seq<Row>, rest: Seq<u8>)
    requires
        plain_rows(rows),
        rows.len() > MAX_HEADERS,
    ensures
        part_headed(header_block(rows) + rest) matches Next::Malformed(ParseError::Other(_)),
{
    let block = header_block(rows);
    law_too_many_headers_are_refused(rows);
    lemma_block_ends_once(rows);
    lemma_block_end(block, rest);
    assert(block.take(block.len() as int) =~= block);
}

/// A preamble is ignored: a message says the same with lines before its first
/// boundary line, if they hold none.
pub proof fn law_preamble_is_ignored(preamble: Seq<u8>, rest: Seq<u8>, boundary: Seq<u8>)
    requires
        plain_boundary(boundary),
        absent(preamble + crlf(), opening(boundary)),
        occurs_at(rest, opening(boundary), 0),
    ensures
        message(preamble + crlf() + rest, boundary) == message(rest, boundary),
{
    let line = opening(boundary);
    let front = preamble + crlf();
    let data = front + rest;
    let n = line.len() as int;
    let behind = rest.skip(n);
    assert(rest.subrange(0, n) =~= line);
    assert(rest =~= line + behind);
    assert(data =~= (front + line) + behind);
    lemma_plain_preamble(front, boundary);
    lemma_find_first_extend(front + line, behind, line);
    lemma_find_first_is(rest, line, 0);
    assert(data.skip(front.len() as int + n) =~= rest.skip(n));
    assert(next_part(data, boundary) == next_part(rest, boundary));
}

/// What is read of a message is the same with and without a preamble, however
/// the two are cut into chunks.
pub proof fn law_preamble_is_not_read<E>(
    m: Model<E>,
    other: Model<E>,
    preamble: Seq<u8>,
    rest: Seq<u8>,
    boundary: Seq<u8>,
)
    requires
        m.core == Core::start(boundary),
        other.core == Core::start(boundary),
        m.steady(),
        other.steady(),
        m.feed.data() == preamble + crlf() + rest,
        other.feed.data() == rest,
        plain_boundary(boundary),
        absent(preamble + crlf(), opening(boundary)),
        occurs_at(rest, opening(boundary), 0),
    ensures
        m.read_all().0 == other.read_all().0,
        m.read_all().1 == other.read_all().1,
{
    assert(m.data() =~= m.feed.data());
    assert(other.data() =~= other.feed.data());
    law_preamble_is_ignored(preamble, rest, boundary);
    law_reads_the_message(m);
    law_reads_the_message(other);
}

/// The round trip of a form: parts with header fields and bodies, written as a
/// message, are read back through the parser part by part, under each name the
/// values that were written, in order, and the bodies byte for byte; and then
/// there are no more parts. How the bytes are cut into chunks makes no
/// difference.
pub proof fn law_form_round_trip<E>(
    m: Model<E>,
    preamble: Seq<u8>,
    parts: Seq<FormPart>,
    boundary: Seq<u8>,
    epilogue: Seq<u8>,
)
    requires
        m.core == Core::start(boundary),
        m.steady(),
        m.feed.data() == written(preamble, form_texts(parts), boundary, epilogue),
        parts.len() > 0,
        plain_boundary(boundary),
        absent(preamble, opening(boundary)),
        forall|i: int| 0 <= i < parts.len() ==> plain_part(#[trigger] parts[i], boundary),
    ensures
        m.read_all().0 == form_contents(parts),
        m.read_all().1 is Complete,
{
    let texts = form_texts(parts);
    assert forall|i: int| 0 <= i < texts.len() implies {
        &&& writable(#[trigger] texts[i], boundary)
        &&& contents(texts)[i] == form_contents(parts)[i]
    } by {
        let (rows, body) = parts[i];
        assert(plain_part(parts[i], boundary));
        assert(texts[i] == (header_block(rows), body));
        law_header_block_is_read_back(rows);
        lemma_block_ends_once(rows);
        lemma_body_writable(body, boundary);
    }
    lemma_plain_preamble(preamble, boundary);
    law_round_trip(m, preamble, texts, boundary, epilogue);
    assert(contents(texts) =~= form_contents(parts));
}

} // verus!
