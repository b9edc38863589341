//! What a multipart message says, read from its bytes as a whole: the parts
//! that it holds, and how it is written.
use vstd::prelude::*;

use crate::error::ParseError;
use crate::headers::{block_headers, collected, header_block, plain_rows, Fields, Row, MAX_HEADERS};
use crate::model::{block_end, crlf, hyphens, lemma_block_end, mark, opening, pattern};
use crate::search::{
    find_first, lemma_find_first, lemma_occurs_extend, lemma_occurs_skip, occurs_at,
};

verus! {

/// What comes next in a message.
pub enum Next {
    /// A part: its headers, and the bytes behind them.
    Part(Fields, Seq<u8>),
    /// A part whose headers cannot be parsed.
    Malformed(ParseError),
    /// The message breaks off.
    Cut,
}

/// The part whose header block starts where `data` starts.
pub open spec fn part_headed(data: Seq<u8>) -> Next {
    match block_end(data) {
        None => Next::Cut,
        Some(end) => match block_headers(data.take(end)) {
            Ok(fields) => Next::Part(fields, data.skip(end)),
            Err(e) => Next::Malformed(e),
        },
    }
}

/// The part that the first boundary of `data` with the end of a line behind it
/// opens; text may stand before it on its line.
pub open spec fn next_part(data: Seq<u8>, boundary: Seq<u8>) -> Next {
    match find_first(data, opening(boundary)) {
        None => Next::Cut,
        Some(at) => part_headed(data.skip(at + opening(boundary).len())),
    }
}

/// A mark and two hyphens: what ends the last body.
pub open spec fn closing(boundary: Seq<u8>) -> Seq<u8> {
    mark(boundary) + hyphens()
}

/// A body that starts where `data` starts ends at `at`.
pub open spec fn ends_at(data: Seq<u8>, boundary: Seq<u8>, at: int) -> bool {
    occurs_at(data, pattern(boundary), at) || occurs_at(data, closing(boundary), at)
}

/// Where the body at the start of `data` ends.
pub open spec fn body_end(data: Seq<u8>, boundary: Seq<u8>) -> Option<int> {
    match (find_first(data, pattern(boundary)), find_first(data, closing(boundary))) {
        (None, last) => last,
        (inner, None) => inner,
        (Some(i), Some(j)) => if i < j {
            Some(i)
        } else {
            Some(j)
        },
    }
}

/// How a message comes to an end.
pub enum Ending {
    /// With its closing boundary.
    Closed,
    /// Before the headers of a part were complete.
    Cut,
    /// Inside the body of the part with these headers.
    CutInBody(Fields),
    /// With headers that cannot be parsed.
    Malformed(ParseError),
}

/// The parts of a message, each with its headers and its body, and its ending.
pub struct Message {
    pub parts: Seq<(Fields, Seq<u8>)>,
    pub ending: Ending,
}

impl Message {
    /// A message without parts.
    pub open spec fn ends(ending: Ending) -> Message {
        Message { parts: Seq::empty(), ending }
    }

    /// With one more part in front.
    pub open spec fn after(self, fields: Fields, body: Seq<u8>) -> Message {
        Message { parts: seq![(fields, body)] + self.parts, ..self }
    }
}

/// The message that `data` holds.
pub open spec fn message(data: Seq<u8>, boundary: Seq<u8>) -> Message
    decreases data.len(),
{
    proof {
        lemma_next_part_shorter(data, boundary);
    }
    match next_part(data, boundary) {
        Next::Cut => Message::ends(Ending::Cut),
        Next::Malformed(e) => Message::ends(Ending::Malformed(e)),
        Next::Part(fields, rest) => match body_end(rest, boundary) {
            None => Message::ends(Ending::CutInBody(fields)),
            Some(end) => {
                proof {
                    lemma_body_end(rest, boundary);
                }
                if occurs_at(rest, pattern(boundary), end) {
                    message(rest.skip(end), boundary).after(fields, rest.take(end))
                } else {
                    Message::ends(Ending::Closed).after(fields, rest.take(end))
                }
            },
        },
    }
}

/// Behind a part's headers there are fewer bytes than before them.
pub proof fn lemma_next_part_shorter(data: Seq<u8>, boundary: Seq<u8>)
    ensures
        next_part(data, boundary) matches Next::Part(_, rest) ==> rest.len() < data.len(),
{
    lemma_find_first(data, opening(boundary));
    if let Some(at) = find_first(data, opening(boundary)) {
        lemma_block_end(data.skip(at + opening(boundary).len()), Seq::empty());
    }
}

/// `body_end` is the first position at which the body can end, and is `None`
/// only when it ends nowhere.
pub proof fn lemma_body_end(data: Seq<u8>, boundary: Seq<u8>)
    ensures
        match body_end(data, boundary) {
            Some(end) => {
                &&& ends_at(data, boundary, end)
                &&& 0 <= end
                &&& end + mark(boundary).len() + 2 <= data.len()
                &&& forall|j: int| 0 <= j < end ==> !#[trigger] ends_at(data, boundary, j)
            },
            None => forall|j: int| !#[trigger] ends_at(data, boundary, j),
        },
{
    lemma_find_first(data, pattern(boundary));
    lemma_find_first(data, closing(boundary));
}

/// Only one position is the first at which a body can end.
pub proof fn lemma_body_end_is(data: Seq<u8>, boundary: Seq<u8>, at: int)
    requires
        ends_at(data, boundary, at),
        forall|j: int| 0 <= j < at ==> !#[trigger] ends_at(data, boundary, j),
    ensures
        body_end(data, boundary) == Some(at),
{
    lemma_body_end(data, boundary);
    assert(ends_at(data, boundary, at));
}

/// Where a body ends in the bytes at hand, it ends there in all of them.
pub proof fn lemma_body_end_extend(data: Seq<u8>, more: Seq<u8>, boundary: Seq<u8>)
    requires
        body_end(data, boundary) is Some,
    ensures
        body_end(data + more, boundary) == body_end(data, boundary),
        occurs_at(data + more, pattern(boundary), body_end(data, boundary)->0) <==> occurs_at(
            data,
            pattern(boundary),
            body_end(data, boundary)->0,
        ),
{
    lemma_body_end(data, boundary);
    let end = body_end(data, boundary)->0;
    assert forall|j: int| 0 <= j <= end implies (#[trigger] ends_at(data + more, boundary, j)
        <==> ends_at(data, boundary, j)) by {
        lemma_occurs_extend(data, more, pattern(boundary), j);
        lemma_occurs_extend(data, more, closing(boundary), j);
    }
    lemma_occurs_extend(data, more, pattern(boundary), end);
    assert(ends_at(data + more, boundary, end));
    lemma_body_end_is(data + more, boundary, end);
}

/// A body ends where a mark stands that an end of line or two hyphens follow.
pub proof fn lemma_ends_at(data: Seq<u8>, boundary: Seq<u8>, at: int)
    ensures
        ends_at(data, boundary, at) <==> {
            let tail = at + mark(boundary).len();
            &&& occurs_at(data, mark(boundary), at)
            &&& tail + 2 <= data.len()
            &&& data.subrange(tail, tail + 2) == crlf() || data.subrange(tail, tail + 2)
                == hyphens()
        },
        occurs_at(data, pattern(boundary), at) <==> {
            let tail = at + mark(boundary).len();
            &&& occurs_at(data, mark(boundary), at)
            &&& tail + 2 <= data.len()
            &&& data.subrange(tail, tail + 2) == crlf()
        },
{
    let m = mark(boundary);
    let tail = at + m.len();
    if 0 <= at && tail + 2 <= data.len() {
        let whole = data.subrange(at, tail + 2);
        assert(whole.take(m.len() as int) =~= data.subrange(at, tail));
        assert(whole.skip(m.len() as int) =~= data.subrange(tail, tail + 2));
        assert(pattern(boundary).take(m.len() as int) =~= m);
        assert(pattern(boundary).skip(m.len() as int) =~= crlf());
        assert(closing(boundary).take(m.len() as int) =~= m);
        assert(closing(boundary).skip(m.len() as int) =~= hyphens());
        assert(whole =~= data.subrange(at, tail) + data.subrange(tail, tail + 2));
        assert(pattern(boundary) =~= m + crlf());
    }
}

/// Where the body does not end within its first `n` bytes, it ends in what
/// follows them.
pub proof fn lemma_body_end_skip(data: Seq<u8>, boundary: Seq<u8>, n: int)
    requires
        0 <= n <= data.len(),
        body_end(data, boundary) matches Some(end) ==> n <= end,
    ensures
        body_end(data.skip(n), boundary) == match body_end(data, boundary) {
            Some(end) => Some(end - n),
            None => None,
        },
        forall|j: int| n <= j ==> (occurs_at(data, pattern(boundary), j) <==> #[trigger] occurs_at(
            data.skip(n),
            pattern(boundary),
            j - n,
        )),
{
    let rest = data.skip(n);
    lemma_body_end(data, boundary);
    assert forall|j: int| n <= j implies (occurs_at(data, pattern(boundary), j)
        <==> #[trigger] occurs_at(data.skip(n), pattern(boundary), j - n)) by {
        lemma_occurs_skip(data, pattern(boundary), n, j - n);
    }
    match body_end(data, boundary) {
        Some(end) => {
            lemma_occurs_skip(data, pattern(boundary), n, end - n);
            lemma_occurs_skip(data, closing(boundary), n, end - n);
            assert forall|j: int| 0 <= j < end - n implies !#[trigger] ends_at(
                rest,
                boundary,
                j,
            ) by {
                lemma_occurs_skip(data, pattern(boundary), n, j);
                lemma_occurs_skip(data, closing(boundary), n, j);
                assert(!ends_at(data, boundary, n + j));
            }
            lemma_body_end_is(rest, boundary, end - n);
        },
        None => {
            lemma_body_end(rest, boundary);
            if let Some(j) = body_end(rest, boundary) {
                lemma_occurs_skip(data, pattern(boundary), n, j);
                lemma_occurs_skip(data, closing(boundary), n, j);
                assert(ends_at(data, boundary, n + j));
            }
        },
    }
}

/// A part as it is written: its header block, up to the empty line that ends
/// it, and its body.
pub type PartText = (Seq<u8>, Seq<u8>);

/// A part can be written between boundaries: its header block ends where the
/// part says and can be parsed, and its body ends with the boundary that is
/// written behind it, and not before.
pub open spec fn writable(part: PartText, boundary: Seq<u8>) -> bool {
    &&& block_end(part.0) == Some(part.0.len() as int)
    &&& block_headers(part.0) is Ok
    &&& body_end(part.1 + pattern(boundary), boundary) == Some(part.1.len() as int)
    &&& body_end(part.1 + closing(boundary), boundary) == Some(part.1.len() as int)
}

/// What is written behind a boundary: the parts that follow, each with the
/// boundary that ends it, or the closing hyphens and an epilogue.
pub open spec fn written_behind(
    parts: Seq<PartText>,
    boundary: Seq<u8>,
    epilogue: Seq<u8>,
) -> Seq<u8>
    decreases parts.len(),
{
    if parts.len() == 0 {
        hyphens() + epilogue
    } else {
        crlf() + parts[0].0 + parts[0].1 + mark(boundary) + written_behind(
            parts.drop_first(),
            boundary,
            epilogue,
        )
    }
}

/// A message with these parts.
pub open spec fn written(
    preamble: Seq<u8>,
    parts: Seq<PartText>,
    boundary: Seq<u8>,
    epilogue: Seq<u8>,
) -> Seq<u8> {
    preamble + hyphens() + boundary + written_behind(parts, boundary, epilogue)
}

/// A part of a form: its header fields and its body.
pub type FormPart = (Seq<Row>, Seq<u8>);

/// A part of a form can be written: it has no more header fields than a part
/// may carry, each of which can be written on a line of its own, and its body,
/// with the end of a line behind it, holds nothing that ends a body.
pub open spec fn plain_part(part: FormPart, boundary: Seq<u8>) -> bool {
    &&& part.0.len() <= MAX_HEADERS
    &&& plain_rows(part.0)
    &&& body_end(part.1 + crlf(), boundary) is None
}

/// The parts of a form as they are written.
pub open spec fn form_texts(parts: Seq<FormPart>) -> Seq<PartText> {
    parts.map_values(|part: FormPart| (header_block(part.0), part.1))
}

/// The fields and the body of each part.
pub open spec fn form_contents(parts: Seq<FormPart>) -> Seq<(Fields, Seq<u8>)> {
    parts.map_values(|part: FormPart| (collected(part.0), part.1))
}

/// The boundary holds no carriage return, as no boundary of a valid message
/// does.
pub open spec fn plain_boundary(boundary: Seq<u8>) -> bool {
    forall|i: int| 0 <= i < boundary.len() ==> #[trigger] boundary[i] != 13
}

/// The headers and the body of each part.
pub open spec fn contents(parts: Seq<PartText>) -> Seq<(Fields, Seq<u8>)> {
    parts.map_values(|part: PartText| (block_headers(part.0)->Ok_0, part.1))
}

/// How a message is written: the preamble, and for each part the boundary line,
/// its header block, its body and the end of a line; the closing boundary, and
/// the epilogue.
pub proof fn law_written(
    preamble: Seq<u8>,
    part: PartText,
    parts: Seq<PartText>,
    boundary: Seq<u8>,
    epilogue: Seq<u8>,
)
    ensures
        written(preamble, Seq::empty(), boundary, epilogue) == preamble + seq![45u8, 45u8]
            + boundary + seq![45u8, 45u8] + epilogue,
        written(preamble, seq![part] + parts, boundary, epilogue) == written(
            preamble + seq![45u8, 45u8] + boundary + seq![13u8, 10u8] + part.0 + part.1 + seq![
                13u8,
                10u8,
            ],
            parts,
            boundary,
            epilogue,
        ),
{
    let all = seq![part] + parts;
    let w = written_behind(parts, boundary, epilogue);
    assert(all.drop_first() =~= parts);
    assert(written_behind(Seq::empty(), boundary, epilogue) == hyphens() + epilogue);
    lemma_written_first(preamble, boundary, part, w);
    assert(written(preamble, Seq::empty(), boundary, epilogue) =~= preamble + seq![45u8, 45u8]
        + boundary + seq![45u8, 45u8] + epilogue);
}

proof fn lemma_written_first(p: Seq<u8>, b: Seq<u8>, part: PartText, w: Seq<u8>)
    ensures
        p + hyphens() + b + (crlf() + part.0 + part.1 + mark(b) + w) == (p + seq![45u8, 45u8] + b
            + seq![13u8, 10u8] + part.0 + part.1 + seq![13u8, 10u8]) + hyphens() + b + w,
{
    lemma_written_regroup(p, seq![45u8, 45u8], b, seq![13u8, 10u8], part.0, part.1, w);
}

proof fn lemma_written_regroup(
    p: Seq<u8>,
    h: Seq<u8>,
    b: Seq<u8>,
    c: Seq<u8>,
    block: Seq<u8>,
    body: Seq<u8>,
    w: Seq<u8>,
)
    ensures
        p + h + b + (c + block + body + (c + h + b) + w) == (p + h + b + c + block + body + c) + h
            + b + w,
{
    assert(p + h + b + (c + block + body + (c + h + b) + w) =~= (p + h + b + c + block + body + c)
        + h + b + w);
}

} // verus!
