//! Messages made up from arbitrary bytes, with baits that look like
//! boundaries, to put the parser under stress.
use vstd::prelude::*;
use vstd::slice::slice_subrange;
use vstd::string::{is_ascii_spec_bytes, StringSliceAdditionalSpecFns};

use crate::document::{
    body_end, contents, message, plain_boundary, writable, written, written_behind, PartText,
};
use crate::headers::{
    block_headers, header_block, header_line, is_name_byte, law_header_block_is_read_back,
    lemma_block_ends_once, plain_row, plain_rows, valid_value, Row,
};
use crate::laws::{law_written_message_is_read_back, lemma_body_writable, lemma_plain_preamble};
use crate::model::{block_end, crlf, hyphens, opening};
use crate::search::absent;

verus! {

/// A byte that may stand in a made-up boundary; any other becomes an `X`.
pub open spec fn boundary_byte(b: u8) -> u8 {
    if 48 <= b <= 57 || 97 <= b <= 122 || 65 <= b <= 90 || b == 45 || b == 95 {
        b
    } else {
        88
    }
}

/// A boundary made of these bytes.
pub open spec fn made_boundary(bytes: Seq<u8>) -> Seq<u8> {
    bytes.map_values(|b: u8| boundary_byte(b))
}

/// The line of a form field with this number.
pub open spec fn disposition(number: int) -> Seq<u8> {
    "Content-Disposition: form-data; name=\"field".spec_bytes() + seq![(48 + number) as u8]
        + "\"\r\n".spec_bytes()
}

/// A part between boundary lines, with the first of them.
pub open spec fn segment(part: PartText, boundary: Seq<u8>) -> Seq<u8> {
    opening(boundary) + part.0 + part.1 + crlf()
}

/// The parts one behind the other, each with its boundary line.
pub open spec fn segments(parts: Seq<PartText>, boundary: Seq<u8>) -> Seq<u8>
    decreases parts.len(),
{
    if parts.len() == 0 {
        Seq::empty()
    } else {
        segment(parts[0], boundary) + segments(parts.drop_first(), boundary)
    }
}

/// The line with the closing boundary.
pub open spec fn closing_line(boundary: Seq<u8>) -> Seq<u8> {
    hyphens() + boundary + hyphens() + crlf()
}

proof fn lemma_regroup(
    h: Seq<u8>,
    b: Seq<u8>,
    c: Seq<u8>,
    block: Seq<u8>,
    body: Seq<u8>,
    w: Seq<u8>,
)
    ensures
        h + b + (c + block + body + (c + h + b) + w) == ((h + b + c) + block + body + c) + (h + b
            + w),
{
    assert(h + b + (c + block + body + (c + h + b) + w) =~= ((h + b + c) + block + body + c) + (h
        + b + w));
}

/// A message is its parts, each with its boundary line, and the closing line.
proof fn lemma_written_segments(parts: Seq<PartText>, boundary: Seq<u8>)
    ensures
        hyphens() + boundary + written_behind(parts, boundary, crlf()) == segments(parts, boundary)
            + closing_line(boundary),
    decreases parts.len(),
{
    let behind = written_behind(parts, boundary, crlf());
    if parts.len() == 0 {
        assert(hyphens() + boundary + behind =~= closing_line(boundary));
        assert(segments(parts, boundary) + closing_line(boundary) =~= closing_line(boundary));
    } else {
        let others = parts.drop_first();
        lemma_written_segments(others, boundary);
        lemma_regroup(
            hyphens(),
            boundary,
            crlf(),
            parts[0].0,
            parts[0].1,
            written_behind(others, boundary, crlf()),
        );
        assert(segment(parts[0], boundary) + (segments(others, boundary) + closing_line(boundary))
            =~= segments(parts, boundary) + closing_line(boundary));
    }
}

/// Puts bytes behind those that are there.
pub(crate) fn put(out: &mut Vec<u8>, bytes: &[u8])
    ensures
        final(out)@ == old(out)@ + bytes@,
{
    out.extend_from_slice(bytes);
    proof {
        assert(out@ =~= old(out)@ + bytes@);
    }
}

/// Puts `--boundary` and the end of the line behind what is there.
pub(crate) fn put_opening(out: &mut Vec<u8>, boundary: &[u8])
    ensures
        final(out)@ == old(out)@ + opening(boundary@),
{
    out.push(45);
    out.push(45);
    put(out, boundary);
    out.push(13);
    out.push(10);
    proof {
        assert(out@ =~= old(out)@ + opening(boundary@));
    }
}

/// Puts the line with the closing boundary behind what is there.
pub(crate) fn put_closing(out: &mut Vec<u8>, boundary: &[u8])
    ensures
        final(out)@ == old(out)@ + closing_line(boundary@),
{
    out.push(45);
    out.push(45);
    put(out, boundary);
    out.push(45);
    out.push(45);
    out.push(13);
    out.push(10);
    proof {
        assert(out@ =~= old(out)@ + closing_line(boundary@));
    }
}

/// Puts the end of a line behind what is there.
pub(crate) fn put_crlf(out: &mut Vec<u8>)
    ensures
        final(out)@ == old(out)@ + crlf(),
{
    out.push(13);
    out.push(10);
    proof {
        assert(out@ =~= old(out)@ + crlf());
    }
}

/// Puts the line of a form field behind what is there.
pub(crate) fn put_disposition(out: &mut Vec<u8>, number: u8)
    requires
        number < 10,
    ensures
        final(out)@ == old(out)@ + disposition(number as int),
{
    put(out, "Content-Disposition: form-data; name=\"field".as_bytes());
    out.push(48 + number);
    put(out, "\"\r\n".as_bytes());
    proof {
        assert(out@ =~= old(out)@ + disposition(number as int));
    }
}

/// Makes a boundary of these bytes.
pub(crate) fn make_boundary(bytes: &[u8]) -> (boundary: Vec<u8>)
    ensures
        boundary@ == made_boundary(bytes@),
{
    let mut boundary: Vec<u8> = Vec::new();
    let mut i: usize = 0;
    while i < bytes.len()
        invariant
            i <= bytes@.len(),
            boundary@ == made_boundary(bytes@.take(i as int)),
        decreases bytes@.len() - i,
    {
        let b: u8 = bytes[i];
        if (48 <= b && b <= 57) || (97 <= b && b <= 122) || (65 <= b && b <= 90) || b == 45 || b
            == 95 {
            boundary.push(b);
        } else {
            boundary.push(88);
        }
        i = i + 1;
        proof {
            assert(boundary@ =~= made_boundary(bytes@.take(i as int)));
        }
    }
    proof {
        assert(bytes@.take(i as int) =~= bytes@);
    }
    boundary
}

/// A header line that is there if the next byte of the tape is a multiple of
/// `divisor`, which then is used up; and the tape behind it.
pub open spec fn optional_line(tape: Seq<u8>, divisor: u8, line: Seq<u8>) -> (Seq<u8>, Seq<u8>) {
    if tape.len() > 0 && tape[0] % divisor == 0 {
        (line, tape.drop_first())
    } else {
        (Seq::empty(), tape)
    }
}

/// The body that a tape gives the part with this number: the next byte says
/// how long it is, the bytes behind it are the body, if there are enough. In
/// every other part, a body that is long enough has a bait behind it, which
/// looks like a boundary.
pub open spec fn taped_body(tape: Seq<u8>, number: int, boundary: Seq<u8>) -> (Seq<u8>, Seq<u8>) {
    if tape.len() == 0 {
        (Seq::empty(), tape)
    } else {
        let wanted = tape[0] % 100 + 1;
        let len = if wanted < tape.len() {
            wanted
        } else {
            tape.len() as int
        };
        let rest = tape.drop_first();
        if len <= rest.len() {
            let bait = if number % 2 == 0 && len > boundary.len() + 4 {
                " --".spec_bytes() + boundary + " ".spec_bytes()
            } else {
                Seq::empty()
            };
            (rest.take(len) + bait, rest.skip(len))
        } else {
            (Seq::empty(), rest)
        }
    }
}

/// The part with this number that a tape gives, and the tape behind it.
pub open spec fn taped_part(tape: Seq<u8>, number: int, boundary: Seq<u8>) -> (PartText, Seq<u8>) {
    let (first, tape) = optional_line(tape, 2, disposition(number));
    let (second, tape) = optional_line(tape, 3, "Content-Type: text/plain\r\n".spec_bytes());
    let (third, tape) = optional_line(tape, 5, "X-Custom-Header: value\r\n".spec_bytes());
    let (body, tape) = taped_body(tape, number, boundary);
    ((first + second + third + crlf(), body), tape)
}

/// The parts from this number on, up to `count` of them.
pub open spec fn taped_parts(tape: Seq<u8>, number: int, count: int, boundary: Seq<u8>) -> Seq<
    PartText,
>
    decreases count - number,
{
    if number >= count {
        Seq::empty()
    } else {
        let (part, rest) = taped_part(tape, number, boundary);
        seq![part] + taped_parts(rest, number + 1, count, boundary)
    }
}

/// The preamble that a tape gives: if the next byte is a multiple of three it
/// says how long, and the bytes behind it are the preamble, if there are
/// enough.
pub open spec fn taped_preamble(tape: Seq<u8>) -> (Seq<u8>, Seq<u8>) {
    if tape.len() > 0 && tape[0] % 3 == 0 {
        let len = tape[0] % 20 + 1;
        let rest = tape.drop_first();
        if len <= rest.len() {
            (rest.take(len) + crlf(), rest.skip(len))
        } else {
            (Seq::empty(), rest)
        }
    } else {
        (Seq::empty(), tape)
    }
}

/// The message that `data` gives, if there is enough of it: the first byte
/// says how long the boundary is, the boundary follows, then a byte that says
/// how many parts there are, and then a tape that the preamble and the parts
/// are taken from.
pub open spec fn generated(data: Seq<u8>) -> Option<Seq<u8>> {
    if data.len() < 4 {
        None
    } else {
        let len = data[0] % 30 + 5;
        if data.len() <= 1 + len {
            None
        } else {
            let boundary = made_boundary(data.subrange(1, 1 + len));
            let count = data[1 + len] % 5 + 1;
            let (preamble, tape) = taped_preamble(data.skip(2 + len));
            Some(written(preamble, taped_parts(tape, 0, count, boundary), boundary, crlf()))
        }
    }
}

/// Whether the tape goes on with a multiple of `divisor`.
fn goes_on(data: &[u8], at: usize, divisor: u8) -> (r: bool)
    requires
        divisor > 0,
    ensures
        r == (at < data@.len() && data@[at as int] % divisor == 0),
        r ==> at < usize::MAX,
{
    at < data.len() && data[at] % divisor == 0
}

/// Puts the header lines of a part and the empty line behind them.
fn put_taped_headers(out: &mut Vec<u8>, data: &[u8], at: usize, number: u8) -> (next: usize)
    requires
        at <= data@.len(),
        number < 10,
    ensures
        at <= next <= data@.len(),
        ({
            let (first, tape) = optional_line(
                data@.skip(at as int),
                2,
                disposition(number as int),
            );
            let (second, tape) = optional_line(
                tape,
                3,
                "Content-Type: text/plain\r\n".spec_bytes(),
            );
            let (third, tape) = optional_line(tape, 5, "X-Custom-Header: value\r\n".spec_bytes());
            &&& final(out)@ == old(out)@ + (first + second + third + crlf())
            &&& data@.skip(next as int) == tape
        }),
{
    let mut next: usize = at;
    let ghost first = optional_line(data@.skip(at as int), 2, disposition(number as int));
    if goes_on(data, next, 2) {
        put_disposition(out, number);
        next = next + 1;
    }
    proof {
        assert(data@.skip(next as int) =~= first.1);
        assert(out@ =~= old(out)@ + first.0);
    }
    let ghost second = optional_line(first.1, 3, "Content-Type: text/plain\r\n".spec_bytes());
    if goes_on(data, next, 3) {
        put(out, "Content-Type: text/plain\r\n".as_bytes());
        next = next + 1;
    }
    proof {
        assert(data@.skip(next as int) =~= second.1);
        assert(out@ =~= old(out)@ + first.0 + second.0);
    }
    let ghost third = optional_line(second.1, 5, "X-Custom-Header: value\r\n".spec_bytes());
    if goes_on(data, next, 5) {
        put(out, "X-Custom-Header: value\r\n".as_bytes());
        next = next + 1;
    }
    proof {
        assert(data@.skip(next as int) =~= third.1);
        assert(out@ =~= old(out)@ + first.0 + second.0 + third.0);
    }
    put_crlf(out);
    proof {
        assert(out@ =~= old(out)@ + (first.0 + second.0 + third.0 + crlf()));
    }
    next
}

/// Puts the body of a part.
fn put_taped_body(
    out: &mut Vec<u8>,
    data: &[u8],
    at: usize,
    number: u8,
    boundary: &[u8],
) -> (next: usize)
    requires
        at <= data@.len(),
        boundary@.len() < 100,
    ensures
        at <= next <= data@.len(),
        final(out)@ == old(out)@ + taped_body(data@.skip(at as int), number as int, boundary@).0,
        data@.skip(next as int) == taped_body(data@.skip(at as int), number as int, boundary@).1,
{
    let ghost tape = data@.skip(at as int);
    if at >= data.len() {
        proof {
            assert(out@ + Seq::<u8>::empty() =~= out@);
        }
        return at;
    }
    let wanted: usize = data[at] as usize % 100 + 1;
    let left: usize = data.len() - at;
    let len: usize = if wanted < left {
        wanted
    } else {
        left
    };
    let start: usize = at + 1;
    proof {
        assert(tape.drop_first() =~= data@.skip(start as int));
    }
    if len <= data.len() - start {
        let body = slice_subrange(data, start, start + len);
        put(out, body);
        proof {
            assert(body@ =~= tape.drop_first().take(len as int));
            assert(data@.skip(start + len) =~= tape.drop_first().skip(len as int));
        }
        let ghost before = out@;
        if number % 2 == 0 && len > boundary.len() + 4 {
            put(out, " --".as_bytes());
            put(out, boundary);
            put(out, " ".as_bytes());
            proof {
                assert(out@ =~= before + (" --".spec_bytes() + boundary@ + " ".spec_bytes()));
            }
        } else {
            proof {
                assert(out@ =~= before + Seq::<u8>::empty());
            }
        }
        proof {
            assert(out@ =~= old(out)@ + taped_body(tape, number as int, boundary@).0);
        }
        start + len
    } else {
        proof {
            assert(out@ + Seq::<u8>::empty() =~= out@);
        }
        start
    }
}

/// Puts a part that the tape gives, with the boundary line before it.
fn put_taped_part(
    out: &mut Vec<u8>,
    data: &[u8],
    at: usize,
    number: u8,
    boundary: &[u8],
) -> (next: usize)
    requires
        at <= data@.len(),
        boundary@.len() < 100,
        number < 10,
    ensures
        at <= next <= data@.len(),
        final(out)@ == old(out)@ + segment(
            taped_part(data@.skip(at as int), number as int, boundary@).0,
            boundary@,
        ),
        data@.skip(next as int) == taped_part(data@.skip(at as int), number as int, boundary@).1,
{
    let ghost part = taped_part(data@.skip(at as int), number as int, boundary@).0;
    put_opening(out, boundary);
    let behind_headers: usize = put_taped_headers(out, data, at, number);
    let next: usize = put_taped_body(out, data, behind_headers, number, boundary);
    put_crlf(out);
    proof {
        assert(out@ =~= old(out)@ + segment(part, boundary@));
    }
    next
}

/// Puts the preamble that the tape gives.
fn put_taped_preamble(out: &mut Vec<u8>, data: &[u8], at: usize) -> (next: usize)
    requires
        at <= data@.len(),
    ensures
        at <= next <= data@.len(),
        final(out)@ == old(out)@ + taped_preamble(data@.skip(at as int)).0,
        data@.skip(next as int) == taped_preamble(data@.skip(at as int)).1,
{
    let ghost tape = data@.skip(at as int);
    if !goes_on(data, at, 3) {
        proof {
            assert(out@ + Seq::<u8>::empty() =~= out@);
        }
        return at;
    }
    let len: usize = data[at] as usize % 20 + 1;
    let start: usize = at + 1;
    proof {
        assert(tape.drop_first() =~= data@.skip(start as int));
    }
    if len <= data.len() - start {
        let preamble = slice_subrange(data, start, start + len);
        put(out, preamble);
        put_crlf(out);
        proof {
            assert(preamble@ =~= tape.drop_first().take(len as int));
            assert(data@.skip(start + len) =~= tape.drop_first().skip(len as int));
            assert(out@ =~= old(out)@ + (preamble@ + crlf()));
        }
        start + len
    } else {
        proof {
            assert(out@ + Seq::<u8>::empty() =~= out@);
        }
        start
    }
}

/// Puts the parts that the tape gives, each with its boundary line.
fn put_taped_parts(out: &mut Vec<u8>, data: &[u8], at: usize, count: u8, boundary: &[u8])
    requires
        at <= data@.len(),
        boundary@.len() < 100,
        count <= 10,
    ensures
        final(out)@ == old(out)@ + segments(
            taped_parts(data@.skip(at as int), 0, count as int, boundary@),
            boundary@,
        ),
{
    let ghost whole = segments(
        taped_parts(data@.skip(at as int), 0, count as int, boundary@),
        boundary@,
    );
    let mut next: usize = at;
    let mut number: u8 = 0;
    while number < count
        invariant
            number <= count <= 10,
            next <= data@.len(),
            boundary@.len() < 100,
            out@ + segments(
                taped_parts(data@.skip(next as int), number as int, count as int, boundary@),
                boundary@,
            ) == old(out)@ + whole,
        decreases count - number,
    {
        let ghost before = out@;
        let ghost todo = taped_parts(
            data@.skip(next as int),
            number as int,
            count as int,
            boundary@,
        );
        next = put_taped_part(out, data, next, number, boundary);
        number = number + 1;
        proof {
            let rest = taped_parts(data@.skip(next as int), number as int, count as int, boundary@);
            assert(todo.drop_first() =~= rest);
            assert(before + (segment(todo[0], boundary@) + segments(rest, boundary@)) =~= out@
                + segments(rest, boundary@));
        }
    }
    proof {
        assert(out@ + Seq::<u8>::empty() =~= out@);
    }
}

/// Bytes in front, the parts and the closing line make a message.
pub proof fn lemma_message_assembled(preamble: Seq<u8>, parts: Seq<PartText>, boundary: Seq<u8>)
    ensures
        preamble + segments(parts, boundary) + closing_line(boundary) == written(
            preamble,
            parts,
            boundary,
            crlf(),
        ),
{
    let behind = written_behind(parts, boundary, crlf());
    lemma_written_segments(parts, boundary);
    assert(preamble + segments(parts, boundary) + closing_line(boundary) =~= preamble + (segments(
        parts,
        boundary,
    ) + closing_line(boundary)));
    assert(preamble + hyphens() + boundary + behind =~= preamble + (hyphens() + boundary + behind));
}

/// Makes a message up from `data`: a boundary, perhaps a preamble, and one to
/// five parts, with or without headers, some of whose bodies end with what
/// looks like a boundary. `None` when there is too little to start with.
pub fn generate_multipart_stream(data: &[u8]) -> (r: Option<Vec<u8>>)
    ensures
        match r {
            Some(stream) => generated(data@) == Some(stream@),
            None => generated(data@) is None,
        },
{
    if data.len() < 4 {
        return None;
    }
    let len: usize = data[0] as usize % 30 + 5;
    if data.len() <= 1 + len {
        return None;
    }
    let boundary_bytes = slice_subrange(data, 1, 1 + len);
    let boundary = make_boundary(boundary_bytes);
    let count: u8 = data[1 + len] % 5 + 1;
    let ghost (preamble, tape) = taped_preamble(data@.skip(2 + len));
    let mut out: Vec<u8> = Vec::new();
    let at: usize = put_taped_preamble(&mut out, data, 2 + len);
    proof {
        assert(out@ =~= preamble);
    }
    put_taped_parts(&mut out, data, at, count, boundary.as_slice());
    put_closing(&mut out, boundary.as_slice());
    proof {
        lemma_message_assembled(
            preamble,
            taped_parts(tape, 0, count as int, boundary@),
            boundary@,
        );
    }
    Some(out)
}

/// The boundary that `data` gives its message.
pub open spec fn generated_boundary(data: Seq<u8>) -> Seq<u8> {
    made_boundary(data.subrange(1, 1 + (data[0] % 30 + 5)))
}

/// The preamble that `data` gives its message, and the tape behind it.
pub open spec fn generated_preamble(data: Seq<u8>) -> (Seq<u8>, Seq<u8>) {
    taped_preamble(data.skip(2 + (data[0] % 30 + 5)))
}

/// The parts that `data` gives its message.
pub open spec fn generated_parts(data: Seq<u8>) -> Seq<PartText> {
    taped_parts(
        generated_preamble(data).1,
        0,
        data[1 + (data[0] % 30 + 5)] % 5 + 1,
        generated_boundary(data),
    )
}

/// Every byte may stand in a header name.
spec fn name_bytes(text: Seq<u8>) -> bool {
    forall|i: int| 0 <= i < text.len() ==> is_name_byte(#[trigger] text[i])
}

/// The line of a form field as a header field.
proof fn lemma_disposition_line(number: int) -> (row: Row)
    requires
        0 <= number < 10,
    ensures
        plain_row(row),
        header_line(row) == disposition(number),
{
    reveal_strlit("Content-Disposition: form-data; name=\"field");
    reveal_strlit("\"\r\n");
    is_ascii_spec_bytes("Content-Disposition: form-data; name=\"field");
    is_ascii_spec_bytes("\"\r\n");
    let name = seq![
        67u8, 111, 110, 116, 101, 110, 116, 45, 68, 105, 115, 112, 111, 115, 105, 116, 105, 111,
        110,
    ];
    let start = seq![
        102u8, 111, 114, 109, 45, 100, 97, 116, 97, 59, 32, 110, 97, 109, 101, 61, 34, 102, 105,
        101, 108, 100,
    ];
    let value = start.push((48 + number) as u8).push(34);
    let row: Row = (name, value);
    assert("Content-Disposition: form-data; name=\"field".spec_bytes() =~= name + seq![58u8, 32u8]
        + start);
    assert("\"\r\n".spec_bytes() =~= seq![34u8, 13, 10]);
    assert(header_line(row) =~= disposition(number));
    assert(name_bytes(name));
    assert(valid_value(value));
    row
}

/// The line of a content type as a header field.
proof fn lemma_content_type_line() -> (row: Row)
    ensures
        plain_row(row),
        header_line(row) == "Content-Type: text/plain\r\n".spec_bytes(),
{
    reveal_strlit("Content-Type: text/plain\r\n");
    is_ascii_spec_bytes("Content-Type: text/plain\r\n");
    let name = seq![67u8, 111, 110, 116, 101, 110, 116, 45, 84, 121, 112, 101];
    let value = seq![116u8, 101, 120, 116, 47, 112, 108, 97, 105, 110];
    let row: Row = (name, value);
    assert(header_line(row) =~= "Content-Type: text/plain\r\n".spec_bytes());
    assert(name_bytes(name));
    assert(valid_value(value));
    row
}

/// The line of a custom header as a header field.
proof fn lemma_custom_line() -> (row: Row)
    ensures
        plain_row(row),
        header_line(row) == "X-Custom-Header: value\r\n".spec_bytes(),
{
    reveal_strlit("X-Custom-Header: value\r\n");
    is_ascii_spec_bytes("X-Custom-Header: value\r\n");
    let name = seq![88u8, 45, 67, 117, 115, 116, 111, 109, 45, 72, 101, 97, 100, 101, 114];
    let value = seq![118u8, 97, 108, 117, 101];
    let row: Row = (name, value);
    assert(header_line(row) =~= "X-Custom-Header: value\r\n".spec_bytes());
    assert(name_bytes(name));
    assert(valid_value(value));
    row
}

/// One more line, or none, in front of a header block.
proof fn lemma_optional_line(
    tape: Seq<u8>,
    divisor: u8,
    row: Row,
    rows: Seq<Row>,
) -> (all: Seq<Row>)
    requires
        plain_row(row),
        plain_rows(rows),
    ensures
        plain_rows(all),
        all.len() <= rows.len() + 1,
        header_block(all) == optional_line(tape, divisor, header_line(row)).0 + header_block(rows),
{
    if tape.len() > 0 && tape[0] % divisor == 0 {
        let all = seq![row] + rows;
        assert(all.drop_first() =~= rows);
        assert forall|i: int| 0 <= i < all.len() implies plain_row(#[trigger] all[i]) by {
            if i > 0 {
                assert(all[i] == rows[i - 1]);
            }
        }
        all
    } else {
        assert(Seq::<u8>::empty() + header_block(rows) =~= header_block(rows));
        rows
    }
}

/// The header block of a made-up part is one of well-formed lines.
proof fn lemma_taped_block(tape: Seq<u8>, number: int, boundary: Seq<u8>) -> (rows: Seq<Row>)
    requires
        0 <= number < 10,
    ensures
        plain_rows(rows),
        rows.len() <= 3,
        taped_part(tape, number, boundary).0.0 == header_block(rows),
{
    let first = lemma_disposition_line(number);
    let second = lemma_content_type_line();
    let third = lemma_custom_line();
    let (a, tape1) = optional_line(tape, 2, header_line(first));
    let (b, tape2) = optional_line(tape1, 3, header_line(second));
    let (c, tape3) = optional_line(tape2, 5, header_line(third));
    let none = Seq::<Row>::empty();
    assert(header_block(none) == crlf());
    let one = lemma_optional_line(tape2, 5, third, none);
    let two = lemma_optional_line(tape1, 3, second, one);
    let three = lemma_optional_line(tape, 2, first, two);
    assert(a + b + c + crlf() =~= a + (b + (c + crlf())));
    three
}

/// Every made-up part has a header block of well-formed lines.
proof fn lemma_taped_blocks(tape: Seq<u8>, number: int, count: int, boundary: Seq<u8>, i: int)
    requires
        0 <= number,
        count <= 10,
        0 <= i < taped_parts(tape, number, count, boundary).len(),
    ensures
        block_end(taped_parts(tape, number, count, boundary)[i].0) == Some(
            taped_parts(tape, number, count, boundary)[i].0.len() as int,
        ),
        block_headers(taped_parts(tape, number, count, boundary)[i].0) is Ok,
    decreases count - number,
{
    let (part, rest) = taped_part(tape, number, boundary);
    let parts = taped_parts(tape, number, count, boundary);
    if i == 0 {
        let rows = lemma_taped_block(tape, number, boundary);
        assert(parts[0] == part);
        law_header_block_is_read_back(rows);
        lemma_block_ends_once(rows);
    } else {
        assert(parts[i] == taped_parts(rest, number + 1, count, boundary)[i - 1]);
        lemma_taped_blocks(rest, number + 1, count, boundary, i - 1);
    }
}

/// As many parts are made up as were asked for.
proof fn lemma_taped_count(tape: Seq<u8>, number: int, count: int, boundary: Seq<u8>)
    requires
        number <= count,
    ensures
        taped_parts(tape, number, count, boundary).len() == count - number,
    decreases count - number,
{
    if number < count {
        lemma_taped_count(taped_part(tape, number, boundary).1, number + 1, count, boundary);
    }
}

/// A made-up message is valid: it holds the parts that it was made of, each
/// with its headers and its body, and is closed. Left out are the messages in
/// which the bytes that were put into the preamble or into a body hold a
/// boundary themselves.
pub proof fn law_generated_is_valid(data: Seq<u8>)
    requires
        generated(data) is Some,
        absent(generated_preamble(data).0, opening(generated_boundary(data))),
        forall|i: int|
            0 <= i < generated_parts(data).len() ==> body_end(
                (#[trigger] generated_parts(data)[i]).1 + crlf(),
                generated_boundary(data),
            ) is None,
    ensures
        message(generated(data)->0, generated_boundary(data)).parts == contents(
            generated_parts(data),
        ),
        message(generated(data)->0, generated_boundary(data)).ending is Closed,
        1 <= generated_parts(data).len() <= 5,
{
    let boundary = generated_boundary(data);
    let (preamble, tape) = generated_preamble(data);
    let parts = generated_parts(data);
    let count = data[1 + (data[0] % 30 + 5)] % 5 + 1;
    assert(plain_boundary(boundary));
    lemma_taped_count(tape, 0, count, boundary);
    assert forall|i: int| 0 <= i < parts.len() implies writable(#[trigger] parts[i], boundary) by {
        lemma_taped_blocks(tape, 0, count, boundary, i);
        lemma_body_writable(parts[i].1, boundary);
    }
    lemma_plain_preamble(preamble, boundary);
    law_written_message_is_read_back(preamble, parts, boundary, crlf());
}

/// When a message is made up: with at least four bytes, and with one behind
/// those that the first byte asks for as a boundary.
pub proof fn law_generated_when(data: Seq<u8>)
    ensures
        generated(data) is Some <==> data.len() >= 4 && data.len() >= 2 + 5 + data[0] % 30,
{
}

/// How a message is made up: a byte that asks for a boundary of five to
/// thirty-four bytes, those bytes, a byte that asks for one to five parts, and a
/// tape for the rest.
pub proof fn law_generated(length: u8, bytes: Seq<u8>, count: u8, tape: Seq<u8>)
    requires
        bytes.len() == length % 30 + 5,
    ensures
        generated(seq![length] + bytes + seq![count] + tape) == Some(
            written(
                taped_preamble(tape).0,
                taped_parts(taped_preamble(tape).1, 0, count % 5 + 1, made_boundary(bytes)),
                made_boundary(bytes),
                seq![13u8, 10u8],
            ),
        ),
        made_boundary(bytes).len() == bytes.len(),
        forall|i: int|
            0 <= i < bytes.len() ==> #[trigger] made_boundary(bytes)[i] == if 48 <= bytes[i] <= 57
                || 65 <= bytes[i] <= 90 || 97 <= bytes[i] <= 122 || bytes[i] == 45 || bytes[i]
                == 95 {
                bytes[i]
            } else {
                88
            },
{
    let data = seq![length] + bytes + seq![count] + tape;
    let n = bytes.len() as int;
    assert(data.subrange(1, 1 + n) =~= bytes);
    assert(data.skip(2 + n) =~= tape);
    assert(data[1 + n] == count);
}

/// How a preamble is made up: a multiple of three asks for one of one to twenty
/// bytes, and is used up, whether or not there are enough; any other byte asks
/// for none.
pub proof fn law_taped_preamble(length: u8, bytes: Seq<u8>, tape: Seq<u8>)
    ensures
        length % 3 == 0 && bytes.len() == length % 20 + 1 ==> taped_preamble(
            seq![length] + bytes + tape,
        ) == (bytes + seq![13u8, 10u8], tape),
        length % 3 == 0 && tape.len() <= length % 20 ==> taped_preamble(seq![length] + tape) == (
            Seq::<u8>::empty(),
            tape,
        ),
        length % 3 != 0 ==> taped_preamble(seq![length] + tape) == (
            Seq::<u8>::empty(),
            seq![length] + tape,
        ),
        taped_preamble(Seq::empty()) == (Seq::<u8>::empty(), Seq::<u8>::empty()),
{
    let all = seq![length] + bytes + tape;
    assert(all.drop_first() =~= bytes + tape);
    assert((bytes + tape).take(bytes.len() as int) =~= bytes);
    assert((bytes + tape).skip(bytes.len() as int) =~= tape);
    assert((seq![length] + tape).drop_first() =~= tape);
}

/// How a header line is made up: the next byte asks for it, and is used up, or
/// does not, and is not.
pub proof fn law_optional_line(next: u8, tape: Seq<u8>, divisor: u8, line: Seq<u8>)
    requires
        divisor > 0,
    ensures
        next % divisor == 0 ==> optional_line(seq![next] + tape, divisor, line) == (line, tape),
        next % divisor != 0 ==> optional_line(seq![next] + tape, divisor, line) == (
            Seq::<u8>::empty(),
            seq![next] + tape,
        ),
        optional_line(Seq::empty(), divisor, line) == (Seq::<u8>::empty(), Seq::<u8>::empty()),
{
    assert((seq![next] + tape).drop_first() =~= tape);
}

/// How a body is made up: a byte that asks for one to a hundred bytes, and those
/// bytes; behind them a bait, in the parts with an even number, if the body is
/// longer than it. Where there are too few bytes, the body is empty.
pub proof fn law_taped_body(
    length: u8,
    body: Seq<u8>,
    tape: Seq<u8>,
    number: int,
    boundary: Seq<u8>,
)
    ensures
        body.len() == length % 100 + 1 && (number % 2 != 0 || body.len() <= boundary.len() + 4)
            ==> taped_body(seq![length] + body + tape, number, boundary) == (body, tape),
        body.len() == length % 100 + 1 && number % 2 == 0 && body.len() > boundary.len() + 4
            ==> taped_body(seq![length] + body + tape, number, boundary) == (
            body + seq![32u8, 45u8, 45u8] + boundary + seq![32u8],
            tape,
        ),
        tape.len() <= length % 100 ==> taped_body(seq![length] + tape, number, boundary) == (
            Seq::<u8>::empty(),
            tape,
        ),
        taped_body(Seq::empty(), number, boundary) == (Seq::<u8>::empty(), Seq::<u8>::empty()),
{
    reveal_strlit(" --");
    reveal_strlit(" ");
    is_ascii_spec_bytes(" --");
    is_ascii_spec_bytes(" ");
    assert(" --".spec_bytes() =~= seq![32u8, 45u8, 45u8]);
    assert(" ".spec_bytes() =~= seq![32u8]);
    let all = seq![length] + body + tape;
    assert(all.drop_first() =~= body + tape);
    assert((body + tape).take(body.len() as int) =~= body);
    assert((body + tape).skip(body.len() as int) =~= tape);
    assert((seq![length] + tape).drop_first() =~= tape);
    assert(body + Seq::<u8>::empty() =~= body);
    assert(body + (seq![32u8, 45u8, 45u8] + boundary + seq![32u8]) =~= body + seq![32u8, 45u8, 45u8]
        + boundary + seq![32u8]);
}

/// How the parts are made up, one after the other, each from the tape that the
/// one before it has left: three header lines that may be there, of a form field
/// with the number of the part, of a content type and of a custom header, the
/// empty line, and the body.
pub proof fn law_taped_parts(tape: Seq<u8>, number: int, count: int, boundary: Seq<u8>)
    ensures
        number >= count ==> taped_parts(tape, number, count, boundary).len() == 0,
        number < count ==> {
            let (first, tape1) = optional_line(tape, 2, disposition(number));
            let (second, tape2) = optional_line(
                tape1,
                3,
                "Content-Type: text/plain\r\n".spec_bytes(),
            );
            let (third, tape3) = optional_line(
                tape2,
                5,
                "X-Custom-Header: value\r\n".spec_bytes(),
            );
            let (body, tape4) = taped_body(tape3, number, boundary);
            taped_parts(tape, number, count, boundary) == seq![
                (first + second + third + seq![13u8, 10u8], body),
            ] + taped_parts(tape4, number + 1, count, boundary)
        },
        0 <= number < 10 ==> disposition(number)
            == "Content-Disposition: form-data; name=\"field".spec_bytes() + seq![
            (48 + number) as u8,
        ] + seq![34u8, 13u8, 10u8],
{
    reveal_strlit("\"\r\n");
    is_ascii_spec_bytes("\"\r\n");
    assert("\"\r\n".spec_bytes() =~= seq![34u8, 13u8, 10u8]);
}

} // verus!
