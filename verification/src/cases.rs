//! Stress cases for the parser, each made from arbitrary bytes, and what comes
//! of reading them in chunks of one size after another.
use vstd::prelude::*;
use vstd::slice::{slice_subrange, slice_to_vec};
use vstd::string::{is_ascii_spec_bytes, StringSliceAdditionalSpecFns};

use crate::document::{message, written, PartText};
use crate::laws::{cut, law_chunk_size_does_not_matter, reported};
use crate::model::crlf;
use crate::samples::{
    disposition, generate_multipart_stream, generated, lemma_message_assembled, made_boundary,
    make_boundary, put, put_closing, put_crlf, put_disposition, put_opening, segment, segments,
};
use crate::source::create_stream_from_chunks;
use crate::stream::MultipartStream;
use crate::whole::{parts_view, read_all, Outcome, WholePart};

verus! {

/// A message, and the boundary to read it with.
#[derive(Debug)]
pub struct Case {
    pub boundary: Vec<u8>,
    pub body: Vec<u8>,
}

impl View for Case {
    type V = (Seq<u8>, Seq<u8>);

    open spec fn view(&self) -> (Seq<u8>, Seq<u8>) {
        (self.boundary@, self.body@)
    }
}

/// The case as its boundary and its bytes.
pub open spec fn case_view(case: Option<Case>) -> Option<(Seq<u8>, Seq<u8>)> {
    match case {
        Some(case) => Some(case@),
        None => None,
    }
}

/// Where `byte` first stands in `bytes`; their length if it does not.
pub open spec fn first_of(bytes: Seq<u8>, byte: u8) -> int
    decreases bytes.len(),
{
    if bytes.len() == 0 || bytes[0] == byte {
        0
    } else {
        1 + first_of(bytes.drop_first(), byte)
    }
}

/// Where `byte` first stands in `bytes`; their length if it does not.
fn position_of(bytes: &[u8], byte: u8) -> (at: usize)
    ensures
        at == first_of(bytes@, byte),
        at <= bytes@.len(),
{
    let mut at: usize = 0;
    proof {
        assert(bytes@.skip(0) =~= bytes@);
    }
    while at < bytes.len() && bytes[at] != byte
        invariant
            at <= bytes@.len(),
            first_of(bytes@, byte) == at + first_of(bytes@.skip(at as int), byte),
        decreases bytes@.len() - at,
    {
        proof {
            assert(bytes@.skip(at as int).drop_first() =~= bytes@.skip(at + 1));
        }
        at = at + 1;
    }
    at
}

/// The case that a stream gives: the boundary is what stands between its third
/// byte and the first carriage return, the message starts with the first
/// hyphen. There is none where the boundary would be empty.
pub open spec fn split_case(stream: Seq<u8>) -> Option<(Seq<u8>, Seq<u8>)> {
    let end = 2 + first_of(stream.skip(2), 13);
    let hyphen = first_of(stream, 45);
    if end <= 2 {
        None
    } else {
        Some(
            (
                stream.subrange(2, end),
                if hyphen < stream.len() {
                    stream.skip(hyphen)
                } else {
                    stream
                },
            ),
        )
    }
}

/// A generated message has more than two bytes.
proof fn lemma_generated_len(data: Seq<u8>)
    ensures
        generated(data) matches Some(stream) ==> stream.len() >= 2,
{
}

/// Makes a message up from `data`, and takes the boundary from the message.
pub fn stream_case(data: &[u8]) -> (case: Option<Case>)
    ensures
        case_view(case) == match generated(data@) {
            Some(stream) => split_case(stream),
            None => None,
        },
        match (case, generated(data@)) {
            (Some(case), Some(stream)) => split_case(stream) == Some(
                (case.boundary@, case.body@),
            ),
            (None, Some(stream)) => split_case(stream) is None,
            (None, None) => true,
            _ => false,
        },
{
    let stream = match generate_multipart_stream(data) {
        Some(stream) => stream,
        None => {
            return None;
        },
    };
    proof {
        lemma_generated_len(data@);
    }
    let bytes = stream.as_slice();
    let behind = slice_subrange(bytes, 2, bytes.len());
    proof {
        assert(behind@ =~= stream@.skip(2));
    }
    let end: usize = 2 + position_of(behind, 13);
    if end <= 2 {
        return None;
    }
    let hyphen: usize = position_of(bytes, 45);
    let start: usize = if hyphen < bytes.len() {
        hyphen
    } else {
        0
    };
    let body = slice_subrange(bytes, start, bytes.len());
    proof {
        assert(body@ =~= stream@.skip(start as int));
        assert(stream@.skip(0) =~= stream@);
    }
    Some(
        Case {
            boundary: slice_to_vec(slice_subrange(bytes, 2, end)),
            body: slice_to_vec(body),
        },
    )
}

/// The names that a made-up header can have.
pub open spec fn header_name(b: u8) -> Seq<u8> {
    if b % 5 == 0 {
        "Content-Disposition".spec_bytes()
    } else if b % 5 == 1 {
        "Content-Type".spec_bytes()
    } else if b % 5 == 2 {
        "X-Custom-Header".spec_bytes()
    } else if b % 5 == 3 {
        "Cache-Control".spec_bytes()
    } else {
        "Content-Transfer-Encoding".spec_bytes()
    }
}

/// A byte of a made-up header value: line breaks are folded, other control
/// characters become question marks.
pub open spec fn value_byte(b: u8) -> Seq<u8> {
    if b == 13 {
        seq![13u8, 10u8, 32u8]
    } else if b == 10 {
        seq![10u8, 32u8]
    } else if b < 32 || b == 127 {
        seq![63u8]
    } else {
        seq![b]
    }
}

/// A made-up header value.
pub open spec fn made_value(bytes: Seq<u8>) -> Seq<u8>
    decreases bytes.len(),
{
    if bytes.len() == 0 {
        Seq::empty()
    } else {
        made_value(bytes.drop_last()) + value_byte(bytes.last())
    }
}

/// Where the value ends that the bytes at `at` call for.
pub open spec fn value_end(data: Seq<u8>, at: int) -> int {
    let end = at + 2 + data[at + 1] % 100 + 1;
    if end < data.len() {
        end
    } else {
        data.len() as int
    }
}

/// The header line that the bytes at `at` call for: the first says which name
/// it has, the second how long the value is, and the value follows.
pub open spec fn made_line(data: Seq<u8>, at: int) -> Seq<u8> {
    header_name(data[at]) + seq![58u8, 32u8] + made_value(
        data.subrange(at + 2, value_end(data, at)),
    ) + crlf()
}

/// Up to `count` header lines, each called for two bytes behind the one
/// before it, as long as there is a value for it.
pub open spec fn made_lines(data: Seq<u8>, at: int, count: int) -> Seq<u8>
    decreases count,
{
    if count <= 0 || at + 2 >= data.len() {
        Seq::empty()
    } else {
        made_line(data, at) + made_lines(data, at + 2, count - 1)
    }
}

/// The case with odd headers that `data` gives: the first byte says how long
/// the boundary is, the boundary follows, then a byte that says how many
/// headers there are. The one part has them, and a short body.
pub open spec fn headers_case(data: Seq<u8>) -> Option<(Seq<u8>, Seq<u8>)> {
    let len = data[0] % 16 + 5;
    if data.len() < 10 || data.len() < 1 + len {
        None
    } else {
        let boundary = made_boundary(data.subrange(1, 1 + len));
        let count = if data.len() > 1 + len {
            (data[1 + len] % 11) as int
        } else {
            0
        };
        let part = (made_lines(data, 2 + len, count) + crlf(), "body".spec_bytes());
        Some((boundary, written(Seq::empty(), seq![part], boundary, crlf())))
    }
}

/// Puts the name of a made-up header.
fn put_header_name(out: &mut Vec<u8>, b: u8)
    ensures
        final(out)@ == old(out)@ + header_name(b),
{
    let kind: u8 = b % 5;
    if kind == 0 {
        put(out, "Content-Disposition".as_bytes());
    } else if kind == 1 {
        put(out, "Content-Type".as_bytes());
    } else if kind == 2 {
        put(out, "X-Custom-Header".as_bytes());
    } else if kind == 3 {
        put(out, "Cache-Control".as_bytes());
    } else {
        put(out, "Content-Transfer-Encoding".as_bytes());
    }
}

/// Puts a made-up header value.
fn put_value(out: &mut Vec<u8>, bytes: &[u8])
    ensures
        final(out)@ == old(out)@ + made_value(bytes@),
{
    let mut i: usize = 0;
    proof {
        assert(out@ + Seq::<u8>::empty() =~= out@);
    }
    while i < bytes.len()
        invariant
            i <= bytes@.len(),
            out@ == old(out)@ + made_value(bytes@.take(i as int)),
        decreases bytes@.len() - i,
    {
        let b: u8 = bytes[i];
        let ghost before = out@;
        if b == 13 {
            out.push(13);
            out.push(10);
            out.push(32);
        } else if b == 10 {
            out.push(10);
            out.push(32);
        } else if b < 32 || b == 127 {
            out.push(63);
        } else {
            out.push(b);
        }
        i = i + 1;
        proof {
            assert(out@ =~= before + value_byte(b));
            assert(bytes@.take(i as int).drop_last() =~= bytes@.take(i - 1));
            assert(old(out)@ + (made_value(bytes@.take(i - 1)) + value_byte(b)) =~= old(out)@
                + made_value(bytes@.take(i - 1)) + value_byte(b));
        }
    }
    proof {
        assert(bytes@.take(i as int) =~= bytes@);
    }
}

/// Puts a made-up header line.
fn put_line(out: &mut Vec<u8>, data: &[u8], at: usize)
    requires
        at + 2 < data@.len(),
    ensures
        final(out)@ == old(out)@ + made_line(data@, at as int),
{
    let total: usize = data.len();
    let len: usize = data[at + 1] as usize % 100 + 1;
    let start: usize = at + 2;
    let end: usize = if len < total - start {
        start + len
    } else {
        total
    };
    put_header_name(out, data[at]);
    out.push(58);
    out.push(32);
    put_value(out, slice_subrange(data, start, end));
    put_crlf(out);
    proof {
        assert(end == value_end(data@, at as int));
        assert(out@ =~= old(out)@ + made_line(data@, at as int));
    }
}

/// Puts up to `count` made-up header lines.
fn put_lines(out: &mut Vec<u8>, data: &[u8], at: usize, count: u8)
    requires
        at <= data@.len() + 1,
    ensures
        final(out)@ == old(out)@ + made_lines(data@, at as int, count as int),
{
    let mut next: usize = at;
    let mut left: u8 = count;
    let ghost whole = made_lines(data@, at as int, count as int);
    while left > 0 && next < data.len() && data.len() - next > 2
        invariant
            out@ + made_lines(data@, next as int, left as int) == old(out)@ + whole,
        decreases left,
    {
        let ghost before = out@;
        put_line(out, data, next);
        next = next + 2;
        left = left - 1;
        proof {
            let rest = made_lines(data@, next as int, left as int);
            assert(before + (made_line(data@, next - 2) + rest) =~= out@ + rest);
        }
    }
    proof {
        assert(out@ + Seq::<u8>::empty() =~= out@);
    }
}

/// Makes a message up from `data` whose one part has odd headers.
pub fn header_case(data: &[u8]) -> (case: Option<Case>)
    ensures
        case_view(case) == headers_case(data@),
        match (case, headers_case(data@)) {
            (Some(case), Some(made)) => case.boundary@ == made.0 && case.body@ == made.1,
            (None, None) => true,
            _ => false,
        },
{
    if data.len() < 10 {
        return None;
    }
    let len: usize = data[0] as usize % 16 + 5;
    if data.len() < 1 + len {
        return None;
    }
    let boundary = make_boundary(slice_subrange(data, 1, 1 + len));
    let count: u8 = if data.len() > 1 + len {
        data[1 + len] % 11
    } else {
        0
    };
    let mut out: Vec<u8> = Vec::new();
    put_opening(&mut out, boundary.as_slice());
    put_lines(&mut out, data, 2 + len, count);
    put_crlf(&mut out);
    put(&mut out, "body".as_bytes());
    put_crlf(&mut out);
    let ghost lines = made_lines(data@, 2 + len, count as int);
    let ghost part: PartText = (lines + crlf(), "body".spec_bytes());
    proof {
        assert(out@ =~= segment(part, boundary@));
        assert(seq![part].drop_first() =~= Seq::<PartText>::empty());
        assert(segments(seq![part].drop_first(), boundary@) =~= Seq::<u8>::empty());
        assert(segments(seq![part], boundary@) =~= segment(part, boundary@));
        assert(out@ =~= Seq::<u8>::empty() + segments(seq![part], boundary@));
    }
    put_closing(&mut out, boundary.as_slice());
    proof {
        lemma_message_assembled(Seq::empty(), seq![part], boundary@);
    }
    Some(Case { boundary, body: out })
}

/// `count` times the same byte.
pub open spec fn repeated(b: u8, count: nat) -> Seq<u8> {
    Seq::new(count, |i: int| b)
}

/// The character with this number, in UTF-8.
pub open spec fn character(b: u8) -> Seq<u8> {
    if b < 128 {
        seq![b]
    } else {
        seq![(192 + b / 64) as u8, (128 + b % 64) as u8]
    }
}

/// The characters with these numbers, in UTF-8.
pub open spec fn characters(bytes: Seq<u8>) -> Seq<u8>
    decreases bytes.len(),
{
    if bytes.len() == 0 {
        Seq::empty()
    } else {
        characters(bytes.drop_last()) + character(bytes.last())
    }
}

/// The first `most` bytes behind the first one, or as many as there are.
pub open spec fn some_behind(data: Seq<u8>, most: int) -> Seq<u8> {
    if data.len() - 1 < most {
        data.skip(1)
    } else {
        data.subrange(1, 1 + most)
    }
}

/// The odd boundary that the first byte calls for: of one byte or of seventy,
/// of arbitrary characters, of hyphens and underscores, with a line break in
/// it, with hyphens around it, with a repeating pattern, or in mixed case.
pub open spec fn odd_boundary(data: Seq<u8>) -> Seq<u8> {
    let kind = data[0] % 8;
    if kind == 0 {
        repeated(97, 1)
    } else if kind == 1 {
        repeated(97, 70)
    } else if kind == 2 {
        characters(some_behind(data, 20)) + "-boundary-xxxxx".spec_bytes()
    } else if kind == 3 {
        "---___---".spec_bytes()
    } else if kind == 4 {
        "a\r\nb".spec_bytes()
    } else if kind == 5 {
        "-boundary-".spec_bytes()
    } else if kind == 6 {
        "abcabcabc".spec_bytes()
    } else {
        "BoUnDaRy123".spec_bytes()
    }
}

/// What the part with this number has behind its header line: up to fifty
/// bytes of the data, in every other part with a bait in the middle that looks
/// like a boundary.
pub open spec fn odd_body(data: Seq<u8>, number: int, boundary: Seq<u8>) -> Seq<u8> {
    let start = 10 + number * 10;
    if data.len() <= start {
        "default body".spec_bytes()
    } else {
        let rest = data.skip(start);
        let len = if rest.len() < 50 {
            rest.len() as int
        } else {
            50
        };
        let half = len / 2;
        if number % 2 == 0 && len > boundary.len() {
            rest.take(half) + " --".spec_bytes() + boundary + " ".spec_bytes() + (if len > half
                + boundary.len() + 3 {
                rest.subrange(half, len)
            } else {
                Seq::empty()
            })
        } else {
            rest.take(len)
        }
    }
}

/// The parts from this number on, up to `count` of them. No empty line parts
/// their header line from what follows it.
pub open spec fn odd_parts(data: Seq<u8>, number: int, count: int, boundary: Seq<u8>) -> Seq<
    PartText,
>
    decreases count - number,
{
    if number >= count {
        Seq::empty()
    } else {
        seq![(disposition(number), odd_body(data, number, boundary))] + odd_parts(
            data,
            number + 1,
            count,
            boundary,
        )
    }
}

/// The case with an odd boundary that `data` gives. The second byte says how
/// many parts there are.
pub open spec fn edge_case(data: Seq<u8>) -> Option<(Seq<u8>, Seq<u8>)> {
    if data.len() < 5 {
        None
    } else {
        let boundary = odd_boundary(data);
        let parts = odd_parts(data, 0, (data[1] % 6) as int, boundary);
        Some((boundary, written(Seq::empty(), parts, boundary, crlf())))
    }
}

/// Puts the same byte `count` times.
fn put_repeated(out: &mut Vec<u8>, b: u8, count: usize)
    ensures
        final(out)@ == old(out)@ + repeated(b, count as nat),
{
    let mut i: usize = 0;
    while i < count
        invariant
            i <= count,
            out@ == old(out)@ + repeated(b, i as nat),
        decreases count - i,
    {
        out.push(b);
        i = i + 1;
        proof {
            assert(out@ =~= old(out)@ + repeated(b, i as nat));
        }
    }
    proof {
        assert(out@ =~= old(out)@ + repeated(b, count as nat));
    }
}

/// Puts the characters with these numbers, in UTF-8.
fn put_characters(out: &mut Vec<u8>, bytes: &[u8])
    ensures
        final(out)@ == old(out)@ + characters(bytes@),
{
    let mut i: usize = 0;
    proof {
        assert(out@ + Seq::<u8>::empty() =~= out@);
    }
    while i < bytes.len()
        invariant
            i <= bytes@.len(),
            out@ == old(out)@ + characters(bytes@.take(i as int)),
        decreases bytes@.len() - i,
    {
        let b: u8 = bytes[i];
        let ghost before = out@;
        if b < 128 {
            out.push(b);
        } else {
            out.push(192 + b / 64);
            out.push(128 + b % 64);
        }
        i = i + 1;
        proof {
            assert(out@ =~= before + character(b));
            assert(bytes@.take(i as int).drop_last() =~= bytes@.take(i - 1));
            assert(old(out)@ + (characters(bytes@.take(i - 1)) + character(b)) =~= old(out)@
                + characters(bytes@.take(i - 1)) + character(b));
        }
    }
    proof {
        assert(bytes@.take(i as int) =~= bytes@);
    }
}

/// Makes the odd boundary that the first byte calls for.
fn make_odd_boundary(data: &[u8]) -> (boundary: Vec<u8>)
    requires
        data@.len() > 0,
    ensures
        boundary@ == odd_boundary(data@),
{
    let mut out: Vec<u8> = Vec::new();
    let kind: u8 = data[0] % 8;
    if kind == 0 {
        put_repeated(&mut out, 97, 1);
    } else if kind == 1 {
        put_repeated(&mut out, 97, 70);
    } else if kind == 2 {
        let end: usize = if data.len() - 1 < 20 {
            data.len()
        } else {
            21
        };
        let behind = slice_subrange(data, 1, end);
        put_characters(&mut out, behind);
        put(&mut out, "-boundary-xxxxx".as_bytes());
        proof {
            assert(behind@ =~= some_behind(data@, 20));
        }
    } else if kind == 3 {
        put(&mut out, "---___---".as_bytes());
    } else if kind == 4 {
        put(&mut out, "a\r\nb".as_bytes());
    } else if kind == 5 {
        put(&mut out, "-boundary-".as_bytes());
    } else if kind == 6 {
        put(&mut out, "abcabcabc".as_bytes());
    } else {
        put(&mut out, "BoUnDaRy123".as_bytes());
    }
    proof {
        assert(out@ =~= odd_boundary(data@));
    }
    out
}

proof fn lemma_put_together(
    out: Seq<u8>,
    a: Seq<u8>,
    b: Seq<u8>,
    c: Seq<u8>,
    d: Seq<u8>,
    e: Seq<u8>,
)
    ensures
        out + a + b + c + d + e == out + (a + b + c + d + e),
{
    assert(out + a + b + c + d + e =~= out + (a + b + c + d + e));
}

/// Puts what the part with this number has behind its header line.
fn put_odd_body(out: &mut Vec<u8>, data: &[u8], number: u8, boundary: &[u8])
    ensures
        final(out)@ == old(out)@ + odd_body(data@, number as int, boundary@),
{
    let start: usize = 10 + number as usize * 10;
    if data.len() <= start {
        put(out, "default body".as_bytes());
        return;
    }
    let rest = slice_subrange(data, start, data.len());
    let len: usize = if rest.len() < 50 {
        rest.len()
    } else {
        50
    };
    let half: usize = len / 2;
    proof {
        assert(rest@ =~= data@.skip(start as int));
    }
    if number % 2 == 0 && len > boundary.len() {
        let front = slice_subrange(rest, 0, half);
        proof {
            assert(front@ =~= rest@.take(half as int));
        }
        let ghost before = out@;
        put(out, front);
        put(out, " --".as_bytes());
        put(out, boundary);
        put(out, " ".as_bytes());
        let ghost baited = out@;
        if len > half + boundary.len() + 3 {
            put(out, slice_subrange(rest, half, len));
        } else {
            proof {
                assert(out@ =~= baited + Seq::<u8>::empty());
            }
        }
        proof {
            lemma_put_together(
                before,
                front@,
                " --".spec_bytes(),
                boundary@,
                " ".spec_bytes(),
                if len > half + boundary.len() + 3 {
                    rest@.subrange(half as int, len as int)
                } else {
                    Seq::empty()
                },
            );
        }
    } else {
        let front = slice_subrange(rest, 0, len);
        put(out, front);
        proof {
            assert(front@ =~= rest@.take(len as int));
        }
    }
}

/// Makes a message up from `data` with an odd boundary.
pub fn boundary_case(data: &[u8]) -> (case: Option<Case>)
    ensures
        case_view(case) == edge_case(data@),
        match (case, edge_case(data@)) {
            (Some(case), Some(made)) => case.boundary@ == made.0 && case.body@ == made.1,
            (None, None) => true,
            _ => false,
        },
{
    if data.len() < 5 {
        return None;
    }
    let boundary = make_odd_boundary(data);
    let count: u8 = data[1] % 6;
    let mut out: Vec<u8> = Vec::new();
    let mut number: u8 = 0;
    let ghost parts = odd_parts(data@, 0, count as int, boundary@);
    proof {
        assert(out@ + segments(parts, boundary@) =~= segments(parts, boundary@));
    }
    while number < count
        invariant
            number <= count <= 5,
            out@ + segments(
                odd_parts(data@, number as int, count as int, boundary@),
                boundary@,
            ) == segments(parts, boundary@),
        decreases count - number,
    {
        let ghost before = out@;
        let ghost todo = odd_parts(data@, number as int, count as int, boundary@);
        put_opening(&mut out, boundary.as_slice());
        put_disposition(&mut out, number);
        put_odd_body(&mut out, data, number, boundary.as_slice());
        put_crlf(&mut out);
        number = number + 1;
        proof {
            let rest = odd_parts(data@, number as int, count as int, boundary@);
            assert(todo.drop_first() =~= rest);
            assert(out@ =~= before + segment(todo[0], boundary@));
            assert(before + (segment(todo[0], boundary@) + segments(rest, boundary@)) =~= out@
                + segments(rest, boundary@));
        }
    }
    proof {
        assert(out@ + Seq::<u8>::empty() =~= out@);
        assert(out@ =~= Seq::<u8>::empty() + segments(parts, boundary@));
    }
    put_closing(&mut out, boundary.as_slice());
    proof {
        lemma_message_assembled(Seq::empty(), parts, boundary@);
    }
    Some(Case { boundary, body: out })
}

/// The case of plain noise that `data` gives: the first sixteen bytes are the
/// boundary, the others the message.
pub open spec fn noise_case(data: Seq<u8>) -> Option<(Seq<u8>, Seq<u8>)> {
    if data.len() < 20 {
        None
    } else {
        Some((data.take(16), data.skip(16)))
    }
}

/// Takes `data` as a boundary and a message, as it is.
pub fn random_case(data: &[u8]) -> (case: Option<Case>)
    ensures
        case_view(case) == noise_case(data@),
        match (case, noise_case(data@)) {
            (Some(case), Some(made)) => case.boundary@ == made.0 && case.body@ == made.1,
            (None, None) => true,
            _ => false,
        },
{
    if data.len() < 20 {
        return None;
    }
    let boundary = slice_subrange(data, 0, 16);
    let body = slice_subrange(data, 16, data.len());
    proof {
        assert(boundary@ =~= data@.take(16));
        assert(body@ =~= data@.skip(16));
    }
    Some(Case { boundary: slice_to_vec(boundary), body: slice_to_vec(body) })
}

/// What comes of reading a message: its parts, and how reading ended.
pub type Read<E> = (Vec<WholePart>, Outcome<E>);

/// The readings are those of the case in chunks of each size in turn.
pub open spec fn readings_of<E>(
    readings: Seq<Read<E>>,
    case: (Seq<u8>, Seq<u8>),
    sizes: Seq<usize>,
) -> bool {
    &&& readings.len() == sizes.len()
    &&& forall|i: int|
        0 <= i < sizes.len() ==> {
            let read = cut::<E>(case.1, case.0, #[trigger] sizes[i] as nat).read_all();
            parts_view(readings[i].0@) == read.0 && readings[i].1@ == read.1
        }
}

/// Reads the case to its end, in chunks of each size in turn.
pub fn read_in_chunks<E>(case: &Case, sizes: &[usize]) -> (readings: Vec<Read<E>>)
    requires
        forall|i: int| 0 <= i < sizes@.len() ==> #[trigger] sizes@[i] > 0,
    ensures
        readings_of(readings@, case@, sizes@),
        readings@.len() == sizes@.len(),
        forall|i: int|
            0 <= i < readings@.len() ==> parts_view((#[trigger] readings@[i]).0@) == message(
                case.body@,
                case.boundary@,
            ).parts && readings@[i].1@ == reported::<E>(
                message(case.body@, case.boundary@).ending,
            ),
{
    let mut readings: Vec<Read<E>> = Vec::new();
    let mut i: usize = 0;
    while i < sizes.len()
        invariant
            i <= sizes@.len(),
            forall|j: int| 0 <= j < sizes@.len() ==> #[trigger] sizes@[j] > 0,
            readings_of(readings@, case@, sizes@.take(i as int)),
        decreases sizes@.len() - i,
    {
        let size: usize = sizes[i];
        let total: usize = case.body.len();
        let stream = create_stream_from_chunks::<E>(case.body.as_slice(), size);
        let mut multipart = MultipartStream::new(stream, case.boundary.as_slice());
        proof {
            assert(multipart@ == cut::<E>(case@.1, case@.0, size as nat));
        }
        let ghost before = readings@;
        readings.push(read_all(&mut multipart));
        proof {
            let done = sizes@.take(i as int);
            let more = sizes@.take(i + 1);
            assert forall|j: int| 0 <= j < more.len() implies {
                let read = cut::<E>(case@.1, case@.0, #[trigger] more[j] as nat).read_all();
                parts_view(readings@[j].0@) == read.0 && readings@[j].1@ == read.1
            } by {
                if j < i {
                    assert(more[j] == done[j]);
                    assert(readings@[j] == before[j]);
                }
            }
        }
        i = i + 1;
    }
    proof {
        assert(sizes@.take(i as int) =~= sizes@);
        assert forall|j: int| 0 <= j < readings@.len() implies parts_view(
            (#[trigger] readings@[j]).0@,
        ) == message(case.body@, case.boundary@).parts && readings@[j].1@ == reported::<E>(
            message(case.body@, case.boundary@).ending,
        ) by {
            assert(sizes@[j] > 0);
            law_chunk_size_does_not_matter::<E>(
                case.body@,
                case.boundary@,
                sizes@[j] as nat,
            );
        }
    }
    readings
}

/// The readings of a case, if there is one.
pub open spec fn tried<E>(
    readings: Option<Vec<Read<E>>>,
    case: Option<(Seq<u8>, Seq<u8>)>,
    sizes: Seq<usize>,
) -> bool {
    match (readings, case) {
        (Some(readings), Some(case)) => readings_of(readings@, case, sizes),
        (None, None) => true,
        _ => false,
    }
}

/// Makes a message up from `data` and reads it in chunks of several sizes.
pub fn do_fuzz<E>(data: &[u8]) -> (readings: Option<Vec<Read<E>>>)
    ensures
        tried(
            readings,
            match generated(data@) {
                Some(stream) => split_case(stream),
                None => None,
            },
            seq![1, 3, 7, 16, 32, 64, 128],
        ),
        generated(data@) is None ==> readings is None,
        generated(data@) matches Some(stream) ==> match (readings, split_case(stream)) {
            (Some(readings), Some(case)) => readings@.len() == 7 && forall|i: int|
                0 <= i < readings@.len() ==> parts_view((#[trigger] readings@[i]).0@) == message(
                    case.1,
                    case.0,
                ).parts && readings@[i].1@ == reported::<E>(message(case.1, case.0).ending),
            (None, None) => true,
            _ => false,
        },
{
    let sizes: [usize; 7] = [1, 3, 7, 16, 32, 64, 128];
    proof {
        assert(sizes@ =~= seq![1, 3, 7, 16, 32, 64, 128]);
    }
    match stream_case(data) {
        Some(case) => Some(read_in_chunks(&case, &sizes)),
        None => None,
    }
}

/// Makes a message with odd headers up from `data` and reads it in chunks of
/// several sizes.
pub fn do_fuzz_headers<E>(data: &[u8]) -> (readings: Option<Vec<Read<E>>>)
    ensures
        tried(readings, headers_case(data@), seq![1, 3, 7, 16, 32, 64, 128, 256]),
        match (readings, headers_case(data@)) {
            (Some(readings), Some(case)) => readings@.len() == 8 && forall|i: int|
                0 <= i < readings@.len() ==> parts_view((#[trigger] readings@[i]).0@) == message(
                    case.1,
                    case.0,
                ).parts && readings@[i].1@ == reported::<E>(message(case.1, case.0).ending),
            (None, None) => true,
            _ => false,
        },
{
    let sizes: [usize; 8] = [1, 3, 7, 16, 32, 64, 128, 256];
    proof {
        assert(sizes@ =~= seq![1, 3, 7, 16, 32, 64, 128, 256]);
    }
    match header_case(data) {
        Some(case) => Some(read_in_chunks(&case, &sizes)),
        None => None,
    }
}

/// Makes a message with an odd boundary up from `data` and reads it in chunks
/// of several sizes.
pub fn do_fuzz_boundary_edge_cases<E>(data: &[u8]) -> (readings: Option<Vec<Read<E>>>)
    ensures
        tried(readings, edge_case(data@), seq![1, 2, 3, 4, 5, 7, 8, 16, 32, 64]),
        match (readings, edge_case(data@)) {
            (Some(readings), Some(case)) => readings@.len() == 10 && forall|i: int|
                0 <= i < readings@.len() ==> parts_view((#[trigger] readings@[i]).0@) == message(
                    case.1,
                    case.0,
                ).parts && readings@[i].1@ == reported::<E>(message(case.1, case.0).ending),
            (None, None) => true,
            _ => false,
        },
{
    let sizes: [usize; 10] = [1, 2, 3, 4, 5, 7, 8, 16, 32, 64];
    proof {
        assert(sizes@ =~= seq![1, 2, 3, 4, 5, 7, 8, 16, 32, 64]);
    }
    match boundary_case(data) {
        Some(case) => Some(read_in_chunks(&case, &sizes)),
        None => None,
    }
}

/// Reads `data` as it is, in chunks of several sizes.
pub fn do_fuzz_random<E>(data: &[u8]) -> (readings: Option<Vec<Read<E>>>)
    ensures
        tried(readings, noise_case(data@), seq![1, 3, 7, 16, 32, 64, 128]),
        match (readings, noise_case(data@)) {
            (Some(readings), Some(case)) => readings@.len() == 7 && forall|i: int|
                0 <= i < readings@.len() ==> parts_view((#[trigger] readings@[i]).0@) == message(
                    case.1,
                    case.0,
                ).parts && readings@[i].1@ == reported::<E>(message(case.1, case.0).ending),
            (None, None) => true,
            _ => false,
        },
{
    let sizes: [usize; 7] = [1, 3, 7, 16, 32, 64, 128];
    proof {
        assert(sizes@ =~= seq![1, 3, 7, 16, 32, 64, 128]);
    }
    match random_case(data) {
        Some(case) => Some(read_in_chunks(&case, &sizes)),
        None => None,
    }
}

/// The first place of a byte: it stands there, if it stands anywhere, and not
/// before.
pub proof fn law_first_of(bytes: Seq<u8>, byte: u8)
    ensures
        0 <= first_of(bytes, byte) <= bytes.len(),
        first_of(bytes, byte) < bytes.len() ==> bytes[first_of(bytes, byte)] == byte,
        forall|i: int| 0 <= i < first_of(bytes, byte) ==> #[trigger] bytes[i] != byte,
    decreases bytes.len(),
{
    if bytes.len() > 0 && bytes[0] != byte {
        let rest = bytes.drop_first();
        law_first_of(rest, byte);
        assert forall|i: int| 0 <= i < first_of(bytes, byte) implies #[trigger] bytes[i]
            != byte by {
            if i > 0 {
                assert(rest[i - 1] == bytes[i]);
            }
        }
    }
}

/// What a stream is split into: the boundary is not empty, stands behind the
/// first two bytes, holds no carriage return and ends at one or with the stream;
/// the message is what is left without the bytes before the first hyphen, or
/// all of it. There is no boundary only where it would be empty.
pub proof fn law_split_case(stream: Seq<u8>)
    requires
        stream.len() >= 2,
    ensures
        match split_case(stream) {
            Some((boundary, body)) => {
                &&& boundary.len() > 0
                &&& 2 + boundary.len() <= stream.len()
                &&& boundary == stream.subrange(2, 2 + boundary.len() as int)
                &&& !boundary.contains(13)
                &&& 2 + boundary.len() < stream.len() ==> stream[2 + boundary.len() as int]
                    == 13
                &&& body.len() <= stream.len()
                &&& body == stream.skip(stream.len() - body.len())
                &&& !stream.take(stream.len() - body.len()).contains(45)
                &&& stream.contains(45) ==> body.len() > 0 && body[0] == 45
                &&& !stream.contains(45) ==> body == stream
            },
            None => stream.len() == 2 || stream[2] == 13,
        },
{
    let behind = stream.skip(2);
    law_first_of(behind, 13);
    law_first_of(stream, 45);
    let end = 2 + first_of(behind, 13);
    let hyphen = first_of(stream, 45);
    if end > 2 {
        let boundary = stream.subrange(2, end);
        assert forall|i: int| 0 <= i < boundary.len() implies #[trigger] boundary[i] != 13 by {
            assert(behind[i] == boundary[i]);
        }
        if stream.contains(45) {
            let k = choose|k: int| 0 <= k < stream.len() && stream[k] == 45;
            assert(hyphen <= k);
        }
        assert(stream.skip(0) =~= stream);
        if hyphen < stream.len() {
            assert(stream.contains(45));
        }
    } else {
        assert(behind.len() > 0 ==> behind[0] == stream[2]);
    }
}

/// A header value is made up byte by byte: line breaks are followed by a blank,
/// other control characters become question marks, and every other byte stays.
pub proof fn law_made_value(front: Seq<u8>, b: u8)
    ensures
        made_value(Seq::empty()).len() == 0,
        b == 13 ==> made_value(front.push(b)) == made_value(front) + seq![13u8, 10u8, 32u8],
        b == 10 ==> made_value(front.push(b)) == made_value(front) + seq![10u8, 32u8],
        (b < 32 && b != 13 && b != 10) || b == 127 ==> made_value(front.push(b)) == made_value(
            front,
        ) + seq![63u8],
        32 <= b && b != 127 ==> made_value(front.push(b)) == made_value(front) + seq![b],
{
    assert(front.push(b).drop_last() =~= front);
    assert(made_value(front.push(b)) == made_value(front) + value_byte(b));
}

/// Characters are encoded one by one, those below 128 as themselves, the others
/// in two bytes that hold six bits of the number and what is left of it.
pub proof fn law_characters(front: Seq<u8>, b: u8)
    ensures
        characters(Seq::empty()).len() == 0,
        b < 128 ==> characters(front.push(b)) == characters(front) + seq![b],
        b >= 128 ==> {
            let all = characters(front.push(b));
            let n = characters(front).len() as int;
            &&& all.len() == n + 2
            &&& all.take(n) == characters(front)
            &&& 192 <= all[n] < 224
            &&& 128 <= all[n + 1] < 192
            &&& (all[n] - 192) * 64 + (all[n + 1] - 128) == b
        },
{
    assert(front.push(b).drop_last() =~= front);
    assert(characters(front.push(b)) == characters(front) + character(b));
    let n = characters(front).len() as int;
    assert((characters(front) + character(b)).take(n) =~= characters(front));
}

/// How header lines are made up: a byte that chooses the name, one that asks for
/// a value of one to a hundred bytes, and the value, or as much of it as there
/// is. The next line is called for two bytes further on.
pub proof fn law_made_lines(
    front: Seq<u8>,
    kind: u8,
    length: u8,
    value: Seq<u8>,
    rest: Seq<u8>,
    count: int,
)
    requires
        value.len() > 0,
        value.len() == length % 100 + 1 || (value.len() <= length % 100 && rest.len() == 0),
    ensures
        ({
            let data = front + seq![kind, length] + value + rest;
            let at = front.len() as int;
            count > 0 ==> made_lines(data, at, count) == header_name(kind) + seq![58u8, 32u8]
                + made_value(value) + seq![13u8, 10u8] + made_lines(data, at + 2, count - 1)
        }),
        kind % 5 == 0 ==> header_name(kind) == "Content-Disposition".spec_bytes(),
        kind % 5 == 1 ==> header_name(kind) == "Content-Type".spec_bytes(),
        kind % 5 == 2 ==> header_name(kind) == "X-Custom-Header".spec_bytes(),
        kind % 5 == 3 ==> header_name(kind) == "Cache-Control".spec_bytes(),
        kind % 5 == 4 ==> header_name(kind) == "Content-Transfer-Encoding".spec_bytes(),
{
    let data = front + seq![kind, length] + value + rest;
    let at = front.len() as int;
    assert(data[at] == kind);
    assert(data[at + 1] == length);
    assert(value_end(data, at) == at + 2 + value.len());
    assert(data.subrange(at + 2, at + 2 + value.len()) =~= value);
}

/// No header lines are made up where none is left to make, or where no byte is
/// left for a value.
pub proof fn law_no_made_lines(data: Seq<u8>, at: int, count: int)
    requires
        count <= 0 || at + 2 >= data.len(),
    ensures
        made_lines(data, at, count).len() == 0,
{
}

/// How a message with odd headers is made up: a byte that asks for a boundary of
/// five to twenty bytes, those bytes, and a byte that asks for up to ten lines.
/// There is none where there are fewer than ten bytes, or too few for the
/// boundary.
pub proof fn law_headers_case(length: u8, bytes: Seq<u8>, count: u8, rest: Seq<u8>)
    requires
        bytes.len() == length % 16 + 5,
    ensures
        ({
            let data = seq![length] + bytes + seq![count] + rest;
            let short = seq![length] + bytes;
            let boundary = made_boundary(bytes);
            let lines = made_lines(data, 2 + bytes.len() as int, (count % 11) as int);
            let text = "body".spec_bytes();
            &&& data.len() >= 10 ==> headers_case(data) == Some(
                (
                    boundary,
                    written(
                        Seq::empty(),
                        seq![(lines + seq![13u8, 10u8], text)],
                        boundary,
                        seq![13u8, 10u8],
                    ),
                ),
            )
            &&& short.len() >= 10 ==> headers_case(short) == Some(
                (
                    boundary,
                    written(
                        Seq::empty(),
                        seq![(seq![13u8, 10u8], text)],
                        boundary,
                        seq![13u8, 10u8],
                    ),
                ),
            )
        }),
        headers_case(rest) is Some <==> rest.len() >= 10 && rest.len() >= 6 + rest[0] % 16,
{
    let data = seq![length] + bytes + seq![count] + rest;
    let short = seq![length] + bytes;
    let n = bytes.len() as int;
    assert(data.subrange(1, 1 + n) =~= bytes);
    assert(short.subrange(1, 1 + n) =~= bytes);
    assert(data[1 + n] == count);
    assert(made_lines(short, 2 + n, 0) + crlf() =~= seq![13u8, 10u8]);
}

/// Which odd boundary the first byte asks for.
pub proof fn law_odd_boundary(kind: u8, rest: Seq<u8>)
    ensures
        ({
            let boundary = odd_boundary(seq![kind] + rest);
            &&& kind % 8 == 0 ==> boundary == seq![97u8]
            &&& kind % 8 == 1 ==> boundary.len() == 70 && forall|i: int|
                0 <= i < 70 ==> #[trigger] boundary[i] == 97
            &&& kind % 8 == 2 && rest.len() < 20 ==> boundary == characters(rest)
                + "-boundary-xxxxx".spec_bytes()
            &&& kind % 8 == 2 && rest.len() >= 20 ==> boundary == characters(rest.take(20))
                + "-boundary-xxxxx".spec_bytes()
            &&& kind % 8 == 3 ==> boundary == "---___---".spec_bytes()
            &&& kind % 8 == 4 ==> boundary == "a\r\nb".spec_bytes()
            &&& kind % 8 == 5 ==> boundary == "-boundary-".spec_bytes()
            &&& kind % 8 == 6 ==> boundary == "abcabcabc".spec_bytes()
            &&& kind % 8 == 7 ==> boundary == "BoUnDaRy123".spec_bytes()
        }),
{
    let data = seq![kind] + rest;
    assert(data.skip(1) =~= rest);
    if rest.len() >= 20 {
        assert(data.subrange(1, 21) =~= rest.take(20));
    }
    assert(repeated(97, 1) =~= seq![97u8]);
}

/// What stands behind the header line of an odd part: the bytes from ten times
/// its number and ten more on, at most fifty of them. In a part with an even
/// number and more bytes than the boundary has, a bait stands in their middle,
/// and their second half only where it is longer than the bait but for a byte.
pub proof fn law_odd_body(front: Seq<u8>, text: Seq<u8>, rest: Seq<u8>, boundary: Seq<u8>)
    requires
        text.len() == 50 || (text.len() < 50 && rest.len() == 0),
        front.len() >= 10,
        front.len() % 10 == 0,
    ensures
        ({
            let number = front.len() / 10 - 1;
            let half = (text.len() / 2) as int;
            let bait = seq![32u8, 45u8, 45u8] + boundary + seq![32u8];
            let body = odd_body(front + text + rest, number, boundary);
            &&& text.len() == 0 ==> body == "default body".spec_bytes()
            &&& text.len() > 0 && (number % 2 != 0 || text.len() <= boundary.len()) ==> body == text
            &&& number % 2 == 0 && text.len() > boundary.len() && text.len() - half
                > boundary.len() + 3 ==> body == text.take(half) + bait + text.skip(half)
            &&& number % 2 == 0 && text.len() > boundary.len() && text.len() - half
                <= boundary.len() + 3 ==> body == text.take(half) + bait
        }),
{
    reveal_strlit(" --");
    reveal_strlit(" ");
    is_ascii_spec_bytes(" --");
    is_ascii_spec_bytes(" ");
    assert(" --".spec_bytes() =~= seq![32u8, 45u8, 45u8]);
    assert(" ".spec_bytes() =~= seq![32u8]);
    let data = front + text + rest;
    let number = front.len() / 10 - 1;
    let half = (text.len() / 2) as int;
    let bait = seq![32u8, 45u8, 45u8] + boundary + seq![32u8];
    assert(10 + number * 10 == front.len());
    assert(data.skip(front.len() as int) =~= text + rest);
    assert((text + rest).take(text.len() as int) =~= text);
    assert((text + rest).take(half) =~= text.take(half));
    assert((text + rest).subrange(half, text.len() as int) =~= text.skip(half));
    let front_half = text.take(half);
    assert(front_half + seq![32u8, 45u8, 45u8] + boundary + seq![32u8] + text.skip(half)
        =~= front_half + bait + text.skip(half));
    assert(front_half + seq![32u8, 45u8, 45u8] + boundary + seq![32u8] + Seq::<u8>::empty()
        =~= front_half + bait);
}

/// How a message with an odd boundary is made up: the second byte asks for up to
/// five parts, each with the line of a form field and no empty line behind it.
/// There is none where there are fewer than five bytes.
pub proof fn law_edge_case(data: Seq<u8>, number: int, count: int, boundary: Seq<u8>)
    ensures
        data.len() < 5 ==> edge_case(data) is None,
        data.len() >= 5 ==> edge_case(data) == Some(
            (
                odd_boundary(data),
                written(
                    Seq::empty(),
                    odd_parts(data, 0, (data[1] % 6) as int, odd_boundary(data)),
                    odd_boundary(data),
                    seq![13u8, 10u8],
                ),
            ),
        ),
        number >= count ==> odd_parts(data, number, count, boundary).len() == 0,
        number < count ==> odd_parts(data, number, count, boundary) == seq![
            (disposition(number), odd_body(data, number, boundary)),
        ] + odd_parts(data, number + 1, count, boundary),
{
}

/// Noise is taken apart into a boundary of sixteen bytes and the others, with
/// nothing lost, if there are at least twenty.
pub proof fn law_noise_case(data: Seq<u8>)
    ensures
        match noise_case(data) {
            Some((boundary, body)) => data.len() >= 20 && boundary.len() == 16 && boundary + body
                == data,
            None => data.len() < 20,
        },
{
    if data.len() >= 20 {
        assert(data.take(16) + data.skip(16) =~= data);
    }
}

} // verus!
