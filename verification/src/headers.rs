//! Part headers: from the raw header block to a `HeaderMap`.
use http::{HeaderMap, HeaderName, HeaderValue};
use vstd::prelude::*;

use crate::error::ParseError;
use crate::model::{blank_line, block_end, crlf};
use crate::search::{
    find_first, lemma_find_first, lemma_find_first_is, lemma_occurs_skip, occurs_at,
};

verus! {

/// The most header fields that one part may carry.
pub const MAX_HEADERS: usize = 64;

/// `http::HeaderName`: opaque here but for its text.
#[verifier::external_type_specification]
#[verifier::external_body]
pub struct ExHeaderName(http::HeaderName);

/// `http::HeaderValue`: opaque here but for its bytes.
#[verifier::external_type_specification]
#[verifier::external_body]
pub struct ExHeaderValue(http::HeaderValue);

/// The error of `http` for a text that is no header name.
#[verifier::external_type_specification]
#[verifier::external_body]
pub struct ExInvalidHeaderName(http::header::InvalidHeaderName);

/// The error of `http` for bytes that are no header value.
#[verifier::external_type_specification]
#[verifier::external_body]
pub struct ExInvalidHeaderValue(http::header::InvalidHeaderValue);

/// `http::HeaderMap`: opaque here but for the fields that it holds.
#[verifier::external_type_specification]
#[verifier::external_body]
#[verifier::reject_recursive_types(T)]
pub struct ExHeaderMap<T>(http::HeaderMap<T>);

/// The header fields of a part: for each name, in lower case, its values in
/// the order in which they stood in the part.
pub type Fields = Map<Seq<u8>, Seq<Seq<u8>>>;

/// The text of a header name.
pub uninterp spec fn name_text(name: HeaderName) -> Seq<u8>;

/// The bytes of a header value.
pub uninterp spec fn value_bytes(value: HeaderValue) -> Seq<u8>;

/// The fields that a header map holds.
pub uninterp spec fn fields_of(map: HeaderMap) -> Map<Seq<u8>, Seq<Seq<u8>>>;

/// A byte that may stand in a header name: a letter, a digit, or one of the
/// signs that HTTP allows in tokens.
pub open spec fn is_name_byte(b: u8) -> bool {
    ||| 48 <= b <= 57
    ||| 65 <= b <= 90
    ||| 94 <= b <= 122
    ||| b == 33
    ||| 35 <= b <= 39
    ||| b == 42
    ||| b == 43
    ||| b == 45
    ||| b == 46
    ||| b == 124
    ||| b == 126
}

/// `text` can be a header name.
pub open spec fn valid_name(text: Seq<u8>) -> bool {
    &&& 0 < text.len() <= 0xffff
    &&& forall|i: int| 0 <= i < text.len() ==> is_name_byte(#[trigger] text[i])
}

/// The lower case of an ASCII letter; any other byte as it is.
pub open spec fn lower(b: u8) -> u8 {
    if 65 <= b <= 90 {
        (b + 32) as u8
    } else {
        b
    }
}

/// `text` with its ASCII letters in lower case.
pub open spec fn lower_case(text: Seq<u8>) -> Seq<u8> {
    text.map_values(|b: u8| lower(b))
}

/// `bytes` can be a header value: no control character but the tab.
pub open spec fn valid_value(bytes: Seq<u8>) -> bool {
    forall|i: int|
        0 <= i < bytes.len() ==> (#[trigger] bytes[i] >= 32 && bytes[i] != 127 || bytes[i] == 9)
}

/// `http::HeaderName::from_bytes` takes texts of 1 to 65535 bytes that may all
/// stand in a header name, and brings them to lower case.
pub assume_specification[ http::HeaderName::from_bytes ](src: &[u8]) -> (r: Result<
    HeaderName,
    http::header::InvalidHeaderName,
>)
    ensures
        r is Ok <==> valid_name(src@),
        r matches Ok(name) ==> name_text(name) == lower_case(src@),
;

/// `http::HeaderValue::from_bytes` takes any bytes but control characters,
/// the tab excepted, and keeps them.
pub assume_specification[ http::HeaderValue::from_bytes ](src: &[u8]) -> (r: Result<
    HeaderValue,
    http::header::InvalidHeaderValue,
>)
    ensures
        r is Ok <==> valid_value(src@),
        r matches Ok(value) ==> value_bytes(value) == src@,
;

/// No header fields at all.
pub open spec fn no_fields() -> Fields {
    Map::empty()
}

/// `http::HeaderMap::new` makes a map without fields.
pub assume_specification[ http::HeaderMap::new ]() -> (map: HeaderMap)
    ensures
        fields_of(map) == no_fields(),
;

/// `fields` with one more value, behind those that the name already has.
pub open spec fn with_field(fields: Fields, name: Seq<u8>, value: Seq<u8>) -> Fields {
    if fields.contains_key(name) {
        fields.insert(name, fields[name].push(value))
    } else {
        fields.insert(name, seq![value])
    }
}

/// Adds one field to a header map.
///
/// Calls `http::HeaderMap::append`, which puts the value behind the values
/// that the name already has. It panics when the map outgrows its largest
/// table, of 32768 slots; with this few names it is far from that.
#[verifier::external_body]
fn append(map: &mut HeaderMap, name: HeaderName, value: HeaderValue)
    requires
        fields_of(*old(map)).dom().finite(),
        fields_of(*old(map)).dom().len() < MAX_HEADERS,
    ensures
        fields_of(*final(map)) == with_field(
            fields_of(*old(map)),
            name_text(name),
            value_bytes(value),
        ),
{
    map.append(name, value);
}

/// A header field as it is written: its name and its value.
pub type Row = (Seq<u8>, Seq<u8>);

/// One row of the table that the header scanner fills. A row that it left
/// alone has an empty name.
pub struct RawHeader {
    pub name: Vec<u8>,
    pub value: Vec<u8>,
}

impl View for RawHeader {
    type V = Row;

    open spec fn view(&self) -> Row {
        (self.name@, self.value@)
    }
}

/// What the header scanner made of a header block.
pub enum HeaderScan {
    /// The block is complete; the rows of the table, used and unused.
    Complete(Vec<RawHeader>),
    /// The block breaks off.
    Partial,
    /// The block is malformed.
    Failed(httparse::Error),
}

/// A `HeaderScan` with its rows as sequences.
pub enum ScanView {
    Complete(Seq<Row>),
    Partial,
    Failed(httparse::Error),
}

/// The rows as pairs of name and value.
pub open spec fn rows_view(rows: Seq<RawHeader>) -> Seq<Row> {
    rows.map_values(|row: RawHeader| row@)
}

impl View for HeaderScan {
    type V = ScanView;

    open spec fn view(&self) -> ScanView {
        match *self {
            HeaderScan::Complete(rows) => ScanView::Complete(rows_view(rows@)),
            HeaderScan::Partial => ScanView::Partial,
            HeaderScan::Failed(e) => ScanView::Failed(e),
        }
    }
}

/// What `httparse::parse_headers` makes of a header block, with a table of
/// `rows` rows.
pub uninterp spec fn scan_result(block: Seq<u8>, rows: nat) -> ScanView;

/// A value that neither starts nor ends with a blank.
pub open spec fn trimmed(value: Seq<u8>) -> bool {
    value.len() > 0 ==> {
        &&& value[0] != 32 && value[0] != 9
        &&& value.last() != 32 && value.last() != 9
    }
}

/// A field that can be written on a line of its own: a valid name, and a valid
/// value without blanks around it.
pub open spec fn plain_row(row: Row) -> bool {
    &&& valid_name(row.0)
    &&& valid_value(row.1)
    &&& trimmed(row.1)
}

/// Every row is one that can be written.
pub open spec fn plain_rows(rows: Seq<Row>) -> bool {
    forall|i: int| 0 <= i < rows.len() ==> plain_row(#[trigger] rows[i])
}

/// A field as a header line: the name, a colon and a blank, the value, the end
/// of the line.
pub open spec fn header_line(row: Row) -> Seq<u8> {
    row.0 + seq![58u8, 32u8] + row.1 + crlf()
}

/// A header block: a line for each field, and an empty line behind them.
pub open spec fn header_block(rows: Seq<Row>) -> Seq<u8>
    decreases rows.len(),
{
    if rows.len() == 0 {
        crlf()
    } else {
        header_line(rows[0]) + header_block(rows.drop_first())
    }
}

/// A row of the scanner's table that was not used.
pub open spec fn empty_row() -> Row {
    (Seq::empty(), Seq::empty())
}

/// `rows` in a table of `size` rows.
pub open spec fn table_of(rows: Seq<Row>, size: nat) -> Seq<Row> {
    rows + Seq::new((size - rows.len()) as nat, |i: int| empty_row())
}

/// `block` is the header block of these fields, and a table of `size` rows has
/// room for them.
pub open spec fn is_block_of(block: Seq<u8>, rows: Seq<Row>, size: nat) -> bool {
    &&& block == header_block(rows)
    &&& plain_rows(rows)
    &&& rows.len() <= size
}

/// `block` is the header block of these fields, and a table of `size` rows has
/// no room for them.
pub open spec fn is_overfull_block(block: Seq<u8>, rows: Seq<Row>, size: nat) -> bool {
    &&& block == header_block(rows)
    &&& plain_rows(rows)
    &&& rows.len() > size
}

/// A line for each field, without the empty line behind them.
pub open spec fn header_lines(rows: Seq<Row>) -> Seq<u8>
    decreases rows.len(),
{
    if rows.len() == 0 {
        Seq::empty()
    } else {
        header_line(rows[0]) + header_lines(rows.drop_first())
    }
}

/// `rest` starts with what would be a header name, but for the byte at `at`:
/// it may not stand in a name, and is no colon behind one. Nor is it the end of
/// the line of an empty one.
pub open spec fn bad_name_at(rest: Seq<u8>, at: int) -> bool {
    &&& 0 <= at < rest.len()
    &&& forall|i: int| 0 <= i < at ==> is_name_byte(#[trigger] rest[i])
    &&& !is_name_byte(rest[at])
    &&& at == 0 ==> rest[at] != 13 && rest[at] != 10
    &&& at > 0 ==> rest[at] != 58
}

/// `block` has a line for each of these fields, and behind them a line whose
/// name goes wrong at `at`.
pub open spec fn is_misnamed_block(block: Seq<u8>, rows: Seq<Row>, at: int) -> bool {
    let lines = header_lines(rows);
    &&& plain_rows(rows)
    &&& lines.len() <= block.len()
    &&& block.take(lines.len() as int) == lines
    &&& bad_name_at(block.skip(lines.len() as int), at)
}

/// Scans a header block.
///
/// Calls `httparse::parse_headers` on `block` with a table of `rows` empty
/// rows, and hands over the table. What comes back depends on the block and
/// the size of the table alone, and a completed table has the rows it had. A
/// block of well-formed lines, no more of them than the table has rows, is
/// completed with one row for each, in order; with more lines than rows it is
/// refused. So is a block with a line, behind well-formed ones, before whose
/// colon a byte stands that may not stand in a name. Of other blocks nothing is
/// said, nor of the error of a refusal.
#[verifier::external_body]
fn scan_headers(block: &[u8], rows: usize) -> (scan: HeaderScan)
    ensures
        scan@ == scan_result(block@, rows as nat),
        scan matches HeaderScan::Complete(table) ==> table@.len() == rows,
        forall|fields: Seq<Row>| #[trigger]
            is_block_of(block@, fields, rows as nat) ==> scan@ == ScanView::Complete(
                table_of(fields, rows as nat),
            ),
        forall|fields: Seq<Row>| #[trigger]
            is_overfull_block(block@, fields, rows as nat) ==> scan@ is Failed,
        forall|fields: Seq<Row>, at: int| #[trigger]
            is_misnamed_block(block@, fields, at) ==> scan@ is Failed,
{
    let mut table = vec![httparse::EMPTY_HEADER; rows];
    match httparse::parse_headers(block, &mut table) {
        Ok(httparse::Status::Complete(_)) => HeaderScan::Complete(
            table.iter().map(
                |row| RawHeader { name: row.name.as_bytes().to_vec(), value: row.value.to_vec() },
            ).collect(),
        ),
        Ok(httparse::Status::Partial) => HeaderScan::Partial,
        Err(e) => HeaderScan::Failed(e),
    }
}

/// What the scanner makes of a header block: the fields of a block that was
/// written from fields, a refusal if they are too many for the table or if a name
/// goes wrong, and what `httparse` makes of any other block.
pub open spec fn scanned(block: Seq<u8>, size: nat) -> ScanView {
    if exists|fields: Seq<Row>| is_block_of(block, fields, size) {
        ScanView::Complete(
            table_of(choose|fields: Seq<Row>| is_block_of(block, fields, size), size),
        )
    } else if (exists|fields: Seq<Row>| is_overfull_block(block, fields, size))
        || (exists|fields: Seq<Row>, at: int| is_misnamed_block(block, fields, at)) {
        ScanView::Failed(scan_result(block, size)->Failed_0)
    } else {
        scan_result(block, size)
    }
}

/// The rows up to the first one without a name.
pub open spec fn used_rows(rows: Seq<Row>) -> Seq<Row>
    decreases rows.len(),
{
    if rows.len() == 0 || rows[0].0.len() == 0 {
        Seq::empty()
    } else {
        seq![rows[0]] + used_rows(rows.drop_first())
    }
}

/// The fields that a list of rows gives: those rows whose name and value are
/// both valid, in order, with the name in lower case.
pub open spec fn collected(rows: Seq<Row>) -> Fields
    decreases rows.len(),
{
    if rows.len() == 0 {
        no_fields()
    } else {
        let before = collected(rows.drop_last());
        let (name, value) = rows.last();
        if valid_name(name) && valid_value(value) {
            with_field(before, lower_case(name), value)
        } else {
            before
        }
    }
}

/// The headers of a part, from what the scanner made of its header block.
pub open spec fn headers_from(scan: ScanView) -> Result<Fields, ParseError> {
    match scan {
        ScanView::Complete(rows) => Ok(collected(used_rows(rows))),
        ScanView::Partial => Err(ParseError::TryParsePartial),
        ScanView::Failed(e) => Err(ParseError::Other(e)),
    }
}

/// The headers of the part with this header block.
pub open spec fn block_headers(block: Seq<u8>) -> Result<Fields, ParseError> {
    headers_from(scanned(block, MAX_HEADERS as nat))
}

/// The header map as its fields.
pub open spec fn headers_view(r: Result<HeaderMap, ParseError>) -> Result<Fields, ParseError> {
    match r {
        Ok(map) => Ok(fields_of(map)),
        Err(e) => Err(e),
    }
}

proof fn lemma_used_rows_step(rows: Seq<Row>, i: int)
    requires
        0 <= i < rows.len(),
        rows[i].0.len() > 0,
    ensures
        used_rows(rows.skip(i)) == seq![rows[i]] + used_rows(rows.skip(i + 1)),
{
    assert(rows.skip(i).drop_first() =~= rows.skip(i + 1));
}

proof fn lemma_with_field_size(fields: Fields, name: Seq<u8>, value: Seq<u8>)
    requires
        fields.dom().finite(),
    ensures
        with_field(fields, name, value).dom().finite(),
        with_field(fields, name, value).dom().len() <= fields.dom().len() + 1,
{
    assert(with_field(fields, name, value).dom() =~= fields.dom().insert(name));
}

/// Collects the scanned rows, up to the first unused one, into a header map.
/// Rows whose name or value `http` does not take are left out.
fn collect_headers(rows: &Vec<RawHeader>) -> (map: HeaderMap)
    requires
        rows@.len() <= MAX_HEADERS,
    ensures
        fields_of(map) == collected(used_rows(rows_view(rows@))),
{
    let mut map: HeaderMap = HeaderMap::new();
    let mut i: usize = 0;
    let ghost all = rows_view(rows@);
    proof {
        assert(all.skip(0) =~= all);
        assert(all.take(0) =~= Seq::empty());
        assert(used_rows(all) =~= all.take(0) + used_rows(all.skip(0)));
    }
    while i < rows.len()
        invariant
            i <= rows@.len() <= MAX_HEADERS,
            all == rows_view(rows@),
            used_rows(all) == all.take(i as int) + used_rows(all.skip(i as int)),
            fields_of(map) == collected(all.take(i as int)),
            fields_of(map).dom().finite(),
            fields_of(map).dom().len() <= i,
        decreases rows@.len() - i,
    {
        let row = &rows[i];
        proof {
            assert(all[i as int] == row@);
        }
        if row.name.len() == 0 {
            proof {
                assert(used_rows(all.skip(i as int)) =~= Seq::empty());
                assert(used_rows(all) =~= all.take(i as int));
            }
            return map;
        }
        proof {
            lemma_used_rows_step(all, i as int);
            assert(all.take(i as int + 1).drop_last() =~= all.take(i as int));
            assert(all.take(i as int + 1).last() == row@);
            assert(all.take(i as int) + (seq![all[i as int]] + used_rows(all.skip(i as int + 1)))
                =~= all.take(i as int + 1) + used_rows(all.skip(i as int + 1)));
            lemma_with_field_size(fields_of(map), lower_case(row.name@), row.value@);
        }
        let name = HeaderName::from_bytes(row.name.as_slice());
        let value = HeaderValue::from_bytes(row.value.as_slice());
        match (name, value) {
            (Ok(name), Ok(value)) => {
                append(&mut map, name, value);
            },
            _ => {},
        }
        i = i + 1;
    }
    proof {
        assert(used_rows(all.skip(i as int)) =~= Seq::empty());
        assert(used_rows(all) =~= all.take(i as int));
    }
    map
}

/// Turns a finished scan of a header block into the headers of the part.
pub fn part_headers(scan: HeaderScan) -> (r: Result<HeaderMap, ParseError>)
    requires
        scan matches HeaderScan::Complete(rows) ==> rows@.len() <= MAX_HEADERS,
    ensures
        headers_view(r) == headers_from(scan@),
        match scan {
            HeaderScan::Complete(rows) => r is Ok && fields_of(r->Ok_0) == collected(
                used_rows(rows_view(rows@)),
            ),
            HeaderScan::Partial => r == Err::<HeaderMap, _>(ParseError::TryParsePartial),
            HeaderScan::Failed(e) => r == Err::<HeaderMap, _>(ParseError::Other(e)),
        },
{
    match scan {
        HeaderScan::Complete(rows) => Ok(collect_headers(&rows)),
        HeaderScan::Partial => Err(ParseError::TryParsePartial),
        HeaderScan::Failed(e) => Err(ParseError::Other(e)),
    }
}

/// Parses the header block of a part: the lines behind the boundary line, with
/// the empty line that ends them.
pub fn parse_header_block(block: &[u8]) -> (r: Result<HeaderMap, ParseError>)
    ensures
        headers_view(r) == block_headers(block@),
        match scan_result(block@, MAX_HEADERS as nat) {
            ScanView::Complete(rows) => r is Ok && fields_of(r->Ok_0) == collected(
                used_rows(rows),
            ),
            ScanView::Partial => r == Err::<HeaderMap, _>(ParseError::TryParsePartial),
            ScanView::Failed(e) => r == Err::<HeaderMap, _>(ParseError::Other(e)),
        },
        block_headers(block@) matches Ok(fields) ==> r is Ok && fields_of(r->Ok_0) == fields,
        block_headers(block@) matches Err(e) ==> r == Err::<HeaderMap, _>(e),
{
    part_headers(scan_headers(block, MAX_HEADERS))
}

/// No two lists of fields are written as the same header block.
proof fn lemma_block_injective(left: Seq<Row>, right: Seq<Row>)
    requires
        plain_rows(left),
        plain_rows(right),
        header_block(left) == header_block(right),
    ensures
        left == right,
    decreases left.len(),
{
    let block = header_block(left);
    if left.len() == 0 {
        if right.len() > 0 {
            assert(plain_row(right[0]));
            assert(block[0] == right[0].0[0]);
            assert(is_name_byte(right[0].0[0]));
        }
        assert(left =~= right);
    } else if right.len() == 0 {
        assert(plain_row(left[0]));
        assert(block[0] == left[0].0[0]);
        assert(is_name_byte(left[0].0[0]));
    } else {
        assert(plain_row(left[0]) && plain_row(right[0]));
        lemma_line_injective(
            left[0],
            right[0],
            header_block(left.drop_first()),
            header_block(right.drop_first()),
        );
        lemma_block_injective(left.drop_first(), right.drop_first());
        assert(left =~= seq![left[0]] + left.drop_first());
        assert(right =~= seq![right[0]] + right.drop_first());
    }
}

/// Where a header line is followed by more, the field can be told from it.
proof fn lemma_line_injective(left: Row, right: Row, behind_left: Seq<u8>, behind_right: Seq<u8>)
    requires
        plain_row(left),
        plain_row(right),
        header_line(left) + behind_left == header_line(right) + behind_right,
    ensures
        left == right,
        behind_left == behind_right,
{
    let text = header_line(left) + behind_left;
    let (n, m) = (left.0.len() as int, right.0.len() as int);
    assert(text[n] == 58 && text[m] == 58);
    if n < m {
        assert(text[n] == right.0[n]);
        assert(is_name_byte(right.0[n]));
    }
    if m < n {
        assert(text[m] == left.0[m]);
        assert(is_name_byte(left.0[m]));
    }
    assert(left.0 =~= text.take(n));
    assert(right.0 =~= text.take(n));
    let start = n + 2;
    let (v, w) = (left.1.len() as int, right.1.len() as int);
    assert(text[start + v] == 13 && text[start + w] == 13);
    if v < w {
        assert(text[start + v] == right.1[v]);
    }
    if w < v {
        assert(text[start + w] == left.1[w]);
    }
    assert(left.1 =~= text.subrange(start, start + v));
    assert(right.1 =~= text.subrange(start, start + v));
    assert(behind_left =~= text.skip(start + v + 2));
    assert(behind_right =~= text.skip(start + v + 2));
}

/// The used rows of a table are those that it was made of.
proof fn lemma_used_rows_table(rows: Seq<Row>, size: nat)
    requires
        plain_rows(rows),
        rows.len() <= size,
    ensures
        used_rows(table_of(rows, size)) == rows,
    decreases rows.len(),
{
    let table = table_of(rows, size);
    if rows.len() == 0 {
        if table.len() > 0 {
            assert(table[0] == empty_row());
        }
        assert(used_rows(table) =~= rows);
    } else {
        assert(plain_row(rows[0]));
        let others = rows.drop_first();
        assert(table.drop_first() =~= table_of(others, (size - 1) as nat));
        lemma_used_rows_table(others, (size - 1) as nat);
        assert(seq![rows[0]] + others =~= rows);
    }
}

/// The header block of a list of fields is parsed into those fields: under each
/// name, in lower case, its values in order.
pub proof fn law_header_block_is_read_back(rows: Seq<Row>)
    requires
        plain_rows(rows),
        rows.len() <= MAX_HEADERS,
    ensures
        block_headers(header_block(rows)) == Ok::<Fields, ParseError>(collected(rows)),
{
    let block = header_block(rows);
    assert(is_block_of(block, rows, MAX_HEADERS as nat));
    let fields = choose|fields: Seq<Row>| is_block_of(block, fields, MAX_HEADERS as nat);
    lemma_block_injective(rows, fields);
    lemma_used_rows_table(rows, MAX_HEADERS as nat);
}

/// A header block with more fields than a part may carry is refused.
pub proof fn law_too_many_headers_are_refused(rows: Seq<Row>)
    requires
        plain_rows(rows),
        rows.len() > MAX_HEADERS,
    ensures
        block_headers(header_block(rows)) matches Err(ParseError::Other(_)),
{
    let block = header_block(rows);
    assert(is_overfull_block(block, rows, MAX_HEADERS as nat));
    if exists|fields: Seq<Row>| is_block_of(block, fields, MAX_HEADERS as nat) {
        let fields = choose|fields: Seq<Row>| is_block_of(block, fields, MAX_HEADERS as nat);
        lemma_block_injective(rows, fields);
    }
}

/// Lines of well-formed fields and a line whose name goes wrong are the header
/// block of no fields.
proof fn lemma_misnamed_is_no_block(rows: Seq<Row>, rest: Seq<u8>, at: int, fields: Seq<Row>)
    requires
        plain_rows(rows),
        plain_rows(fields),
        bad_name_at(rest, at),
    ensures
        header_lines(rows) + rest != header_block(fields),
    decreases rows.len(),
{
    let block = header_lines(rows) + rest;
    if block != header_block(fields) {
    } else if rows.len() == 0 {
        assert(block =~= rest);
        if fields.len() > 0 {
            let n = fields[0].0.len() as int;
            assert(plain_row(fields[0]));
            assert(rest[n] == 58);
            if at < n {
                assert(rest[at] == fields[0].0[at]);
                assert(is_name_byte(fields[0].0[at]));
            } else if n < at {
                assert(is_name_byte(rest[n]));
            }
        }
    } else {
        assert(plain_row(rows[0]));
        assert(is_name_byte(rows[0].0[0]));
        assert(block[0] == rows[0].0[0]);
        let behind = header_lines(rows.drop_first()) + rest;
        assert(block =~= header_line(rows[0]) + behind);
        if fields.len() > 0 {
            assert(plain_row(fields[0]));
            lemma_line_injective(
                rows[0],
                fields[0],
                behind,
                header_block(fields.drop_first()),
            );
            lemma_misnamed_is_no_block(rows.drop_first(), rest, at, fields.drop_first());
        }
    }
}

/// A header block with a line before whose colon a byte stands that may not
/// stand in a name is refused, whatever the well-formed lines before it.
pub proof fn law_bad_header_name_is_refused(rows: Seq<Row>, rest: Seq<u8>, at: int)
    requires
        plain_rows(rows),
        0 <= at < rest.len(),
        forall|i: int| 0 <= i < at ==> is_name_byte(#[trigger] rest[i]),
        !is_name_byte(rest[at]),
        at == 0 ==> rest[at] != 13 && rest[at] != 10,
        at > 0 ==> rest[at] != 58,
    ensures
        block_headers(header_lines(rows) + rest) matches Err(ParseError::Other(_)),
{
    let lines = header_lines(rows);
    let block = lines + rest;
    assert(block.take(lines.len() as int) =~= lines);
    assert(block.skip(lines.len() as int) =~= rest);
    assert(is_misnamed_block(block, rows, at));
    if exists|fields: Seq<Row>| is_block_of(block, fields, MAX_HEADERS as nat) {
        let fields = choose|fields: Seq<Row>| is_block_of(block, fields, MAX_HEADERS as nat);
        lemma_misnamed_is_no_block(rows, rest, at, fields);
    }
}

/// Of any block that is not one of well-formed lines, the headers are what the
/// scanner finds in it: where it refuses the block, so is the part, with the same
/// error; where it finds the block to break off, that is the error.
pub proof fn law_scanner_decides(block: Seq<u8>)
    requires
        forall|rows: Seq<Row>| plain_rows(rows) ==> #[trigger] header_block(rows) != block,
    ensures
        scan_result(block, 64) matches ScanView::Failed(e) ==> block_headers(block) == Err::<
            Fields,
            _,
        >(ParseError::Other(e)),
        scan_result(block, 64) is Partial ==> block_headers(block) is Err,
        (forall|rows: Seq<Row>, at: int| !#[trigger] is_misnamed_block(block, rows, at)) ==> match
        scan_result(block, 64) {
            ScanView::Complete(table) => block_headers(block) == headers_from(
                ScanView::Complete(table),
            ),
            ScanView::Partial => block_headers(block) == Err::<Fields, _>(
                ParseError::TryParsePartial,
            ),
            ScanView::Failed(_) => true,
        },
{
    if exists|fields: Seq<Row>| is_block_of(block, fields, 64) {
        let fields = choose|fields: Seq<Row>| is_block_of(block, fields, 64);
        assert(header_block(fields) == block);
    }
    if exists|fields: Seq<Row>| is_overfull_block(block, fields, 64) {
        let fields = choose|fields: Seq<Row>| is_overfull_block(block, fields, 64);
        assert(header_block(fields) == block);
    }
}

/// A header field that `http` takes: both its name and its value are valid.
pub open spec fn taken(row: Row) -> bool {
    valid_name(row.0) && valid_value(row.1)
}

/// The values under a name, in the order of the rows.
proof fn lemma_values_under(rows: Seq<Row>, key: Seq<u8>)
    ensures
        collected(rows).contains_key(key) <==> exists|i: int|
            0 <= i < rows.len() && taken(#[trigger] rows[i]) && lower_case(rows[i].0) == key,
        collected(rows).contains_key(key) ==> collected(rows)[key] == rows.filter(
            |row: Row| taken(row) && lower_case(row.0) == key,
        ).map_values(|row: Row| row.1),
        !collected(rows).contains_key(key) ==> rows.filter(
            |row: Row| taken(row) && lower_case(row.0) == key,
        ) == Seq::<Row>::empty(),
    decreases rows.len(),
{
    reveal(Seq::filter);
    let pred = |row: Row| taken(row) && lower_case(row.0) == key;
    let value = |row: Row| row.1;
    if rows.len() > 0 {
        let before = rows.drop_last();
        let last = rows.last();
        lemma_values_under(before, key);
        assert forall|i: int| 0 <= i < before.len() implies before[i] == #[trigger] rows[i] by {}
        assert(rows[rows.len() - 1] == last);
        if pred(last) {
            assert(before.filter(pred).push(last).map_values(value) =~= before.filter(
                pred,
            ).map_values(value).push(last.1));
            assert(Seq::<Row>::empty().map_values(value).push(last.1) =~= seq![last.1]);
        }
        assert(collected(rows).contains_key(key) ==> exists|i: int|
            0 <= i < rows.len() && taken(#[trigger] rows[i]) && lower_case(rows[i].0) == key) by {
            if collected(rows).contains_key(key) && !pred(last) {
                let i = choose|i: int|
                    0 <= i < before.len() && taken(#[trigger] before[i]) && lower_case(before[i].0)
                        == key;
                assert(taken(rows[i]));
            }
        }
        assert((exists|i: int|
            0 <= i < rows.len() && taken(#[trigger] rows[i]) && lower_case(rows[i].0) == key)
            ==> collected(rows).contains_key(key)) by {
            if exists|i: int|
                0 <= i < rows.len() && taken(#[trigger] rows[i]) && lower_case(rows[i].0) == key {
                let i = choose|i: int|
                    0 <= i < rows.len() && taken(#[trigger] rows[i]) && lower_case(rows[i].0)
                        == key;
                if i < before.len() {
                    assert(taken(before[i]));
                }
            }
        }
    }
}

/// From a finished scan, the headers have under each name, in lower case, the
/// values of the rows with that name, byte for byte and in order; of the rows
/// before the first unused one, and of those that `http` takes. They have no
/// other names.
pub proof fn law_scanned_values_are_kept(table: Seq<Row>, used: int, key: Seq<u8>)
    requires
        0 <= used <= table.len(),
        forall|i: int| 0 <= i < used ==> (#[trigger] table[i]).0.len() > 0,
        used < table.len() ==> table[used].0.len() == 0,
    ensures
        headers_from(ScanView::Complete(table)) matches Ok(fields) && {
            let under = table.take(used).filter(
                |row: Row| valid_name(row.0) && valid_value(row.1) && lower_case(row.0) == key,
            );
            &&& fields.contains_key(key) <==> under.len() > 0
            &&& fields.contains_key(key) ==> fields[key] == under.map_values(|row: Row| row.1)
        },
{
    lemma_used_rows_are(table, used);
    let rows = table.take(used);
    lemma_values_under(rows, key);
    let pred = |row: Row| taken(row) && lower_case(row.0) == key;
    let other = |row: Row| valid_name(row.0) && valid_value(row.1) && lower_case(row.0) == key;
    lemma_same_filter(rows, pred, other);
    if collected(rows).contains_key(key) {
        broadcast use vstd::seq_lib::group_filter_ensures;

        let i = choose|i: int|
            0 <= i < rows.len() && taken(#[trigger] rows[i]) && lower_case(rows[i].0) == key;
        assert(pred(rows[i]));
        assert(rows.filter(pred).contains(rows[i]));
    }
}

/// Two tests that agree keep the same rows.
proof fn lemma_same_filter(
    rows: Seq<Row>,
    pred: spec_fn(Row) -> bool,
    other: spec_fn(Row) -> bool,
)
    requires
        forall|row: Row| #[trigger] pred(row) == other(row),
    ensures
        rows.filter(pred) == rows.filter(other),
    decreases rows.len(),
{
    reveal(Seq::filter);
    if rows.len() > 0 {
        lemma_same_filter(rows.drop_last(), pred, other);
        assert(pred(rows.last()) == other(rows.last()));
    }
}

/// The used rows of a table are those before its first unused one.
proof fn lemma_used_rows_are(table: Seq<Row>, used: int)
    requires
        0 <= used <= table.len(),
        forall|i: int| 0 <= i < used ==> (#[trigger] table[i]).0.len() > 0,
        used < table.len() ==> table[used].0.len() == 0,
    ensures
        used_rows(table) == table.take(used),
    decreases used,
{
    if used == 0 {
        assert(table.take(0) =~= Seq::empty());
    } else {
        let rest = table.drop_first();
        assert forall|i: int| 0 <= i < used - 1 implies (#[trigger] rest[i]).0.len() > 0 by {
            assert(rest[i] == table[i + 1]);
        }
        assert(table[0].0.len() > 0);
        lemma_used_rows_are(rest, used - 1);
        assert(table.take(used) =~= seq![table[0]] + rest.take(used - 1));
    }
}

/// What was written is what is read: the headers of a block of well-formed
/// lines have under each name, in lower case, the values of the lines with that
/// name, byte for byte and in order, and no other names.
pub proof fn law_written_values_are_kept(rows: Seq<Row>, key: Seq<u8>)
    requires
        plain_rows(rows),
        rows.len() <= MAX_HEADERS,
    ensures
        block_headers(header_block(rows)) matches Ok(fields) && {
            let under = rows.filter(|row: Row| lower_case(row.0) == key);
            &&& fields.contains_key(key) <==> under.len() > 0
            &&& fields.contains_key(key) ==> fields[key] == under.map_values(|row: Row| row.1)
        },
{
    law_header_block_is_read_back(rows);
    lemma_values_under(rows, key);
    let pred = |row: Row| taken(row) && lower_case(row.0) == key;
    let other = |row: Row| lower_case(row.0) == key;
    lemma_same_filter_on(rows, pred, other);
    if collected(rows).contains_key(key) {
        broadcast use vstd::seq_lib::group_filter_ensures;

        let i = choose|i: int|
            0 <= i < rows.len() && taken(#[trigger] rows[i]) && lower_case(rows[i].0) == key;
        assert(pred(rows[i]));
        assert(rows.filter(pred).contains(rows[i]));
    }
}

/// Two tests that agree on the rows keep the same of them.
proof fn lemma_same_filter_on(
    rows: Seq<Row>,
    pred: spec_fn(Row) -> bool,
    other: spec_fn(Row) -> bool,
)
    requires
        plain_rows(rows),
        forall|row: Row| plain_row(row) ==> #[trigger] pred(row) == other(row),
    ensures
        rows.filter(pred) == rows.filter(other),
    decreases rows.len(),
{
    reveal(Seq::filter);
    if rows.len() > 0 {
        let before = rows.drop_last();
        assert forall|i: int| 0 <= i < before.len() implies plain_row(#[trigger] before[i]) by {
            assert(before[i] == rows[i]);
        }
        lemma_same_filter_on(before, pred, other);
        assert(plain_row(rows[rows.len() - 1]));
        assert(pred(rows.last()) == other(rows.last()));
    }
}

/// A single header field: its value, byte for byte, under its name in lower
/// case, and nothing else.
pub proof fn law_single_header(name: Seq<u8>, value: Seq<u8>)
    requires
        plain_row((name, value)),
    ensures
        block_headers(name + seq![58u8, 32u8] + value + seq![13u8, 10u8, 13u8, 10u8]) == Ok::<
            Fields,
            ParseError,
        >(map![lower_case(name) => seq![value]]),
{
    let rows = seq![(name, value)];
    assert(rows.drop_first() =~= Seq::<Row>::empty());
    assert(header_block(rows.drop_first()) == crlf());
    assert(header_block(rows) =~= name + seq![58u8, 32u8] + value + seq![13u8, 10u8, 13u8, 10u8]);
    law_header_block_is_read_back(rows);
    assert(rows.drop_last() =~= Seq::<Row>::empty());
    assert(collected(rows.drop_last()) == no_fields());
    assert(collected(rows) =~= map![lower_case(name) => seq![value]]);
}

/// The bytes that the words of this module speak of: what may stand in a name
/// and in a value, and what lower case is.
pub proof fn law_header_bytes(text: Seq<u8>, i: int)
    ensures
        valid_name(text) <==> 1 <= text.len() <= 65535 && forall|j: int|
            0 <= j < text.len() ==> is_name_byte(#[trigger] text[j]),
        valid_value(text) <==> forall|j: int|
            0 <= j < text.len() ==> 32 <= #[trigger] text[j] && text[j] != 127 || text[j] == 9,
        lower_case(text).len() == text.len(),
        0 <= i < text.len() && 65 <= text[i] <= 90 ==> lower_case(text)[i] == text[i] + 32,
        0 <= i < text.len() && !(65 <= text[i] <= 90) ==> lower_case(text)[i] == text[i],
        forall|b: u8|
            #[trigger] is_name_byte(b) <==> seq![
                33u8, 35, 36, 37, 38, 39, 42, 43, 45, 46, 48, 49, 50, 51, 52, 53, 54, 55, 56, 57,
                94, 95, 96, 124, 126,
            ].contains(b) || 65 <= b <= 90 || 97 <= b <= 122,
{
    let signs = seq![
        33u8, 35, 36, 37, 38, 39, 42, 43, 45, 46, 48, 49, 50, 51, 52, 53, 54, 55, 56, 57,
        94, 95, 96, 124, 126,
    ];
    assert forall|b: u8| #[trigger]
        is_name_byte(b) <==> signs.contains(b) || 65 <= b <= 90 || 97 <= b <= 122 by {
        assert(signs[0] == 33 && signs[1] == 35 && signs[2] == 36 && signs[3] == 37);
        assert(signs[4] == 38 && signs[5] == 39 && signs[6] == 42 && signs[7] == 43);
        assert(signs[8] == 45 && signs[9] == 46 && signs[10] == 48 && signs[11] == 49);
        assert(signs[12] == 50 && signs[13] == 51 && signs[14] == 52 && signs[15] == 53);
        assert(signs[16] == 54 && signs[17] == 55 && signs[18] == 56 && signs[19] == 57);
        assert(signs[20] == 94 && signs[21] == 95 && signs[22] == 96 && signs[23] == 124);
        assert(signs[24] == 126);
    }
}

/// How header fields are written: a line for each, of the name, a colon, a
/// blank, the value and the end of the line, and the end of a line behind them.
pub proof fn law_written_block(row: Row, rows: Seq<Row>)
    ensures
        header_block(Seq::empty()) == seq![13u8, 10u8],
        header_block(seq![row] + rows) == row.0 + seq![58u8, 32u8] + row.1 + seq![13u8, 10u8]
            + header_block(rows),
        header_lines(Seq::empty()) == Seq::<u8>::empty(),
        header_lines(seq![row] + rows) == row.0 + seq![58u8, 32u8] + row.1 + seq![13u8, 10u8]
            + header_lines(rows),
        plain_row(row) <==> {
            &&& valid_name(row.0)
            &&& valid_value(row.1)
            &&& row.1.len() > 0 ==> row.1[0] != 32 && row.1[0] != 9 && row.1[row.1.len() - 1] != 32
                && row.1[row.1.len() - 1] != 9
        },
        plain_rows(seq![row] + rows) <==> plain_row(row) && plain_rows(rows),
{
    let all = seq![row] + rows;
    assert(all.drop_first() =~= rows);
    assert(header_block(all) =~= row.0 + seq![58u8, 32u8] + row.1 + seq![13u8, 10u8]
        + header_block(rows));
    assert(header_lines(all) =~= row.0 + seq![58u8, 32u8] + row.1 + seq![13u8, 10u8]
        + header_lines(rows));
    assert(all[0] == row);
    assert forall|i: int| 0 <= i < rows.len() implies all[i + 1] == #[trigger] rows[i] by {}
    if plain_rows(all) {
        assert(plain_row(all[0]));
        assert forall|i: int| 0 <= i < rows.len() implies plain_row(#[trigger] rows[i]) by {
            assert(plain_row(all[i + 1]));
        }
    }
    if plain_row(row) && plain_rows(rows) {
        assert forall|i: int| 0 <= i < all.len() implies plain_row(#[trigger] all[i]) by {
            if i > 0 {
                assert(all[i] == rows[i - 1]);
            }
        }
    }
}

/// The first empty line of a header block with fields is the one that ends it.
proof fn lemma_first_empty_line(rows: Seq<Row>)
    requires
        plain_rows(rows),
        rows.len() > 0,
    ensures
        find_first(header_block(rows), blank_line()) == Some(header_block(rows).len() - 4),
        header_block(rows).len() >= 4,
    decreases rows.len(),
{
    let block = header_block(rows);
    let line = header_line(rows[0]);
    let others = rows.drop_first();
    let tail = header_block(others);
    let last = block.len() - 4;
    assert(plain_row(rows[0]));
    assert forall|i: int| 0 <= i < line.len() && line[i] == 13 implies i == line.len() - 2 by {
        let (name, value) = rows[0];
        if i < name.len() {
            assert(line[i] == name[i]);
            assert(is_name_byte(name[i]));
        } else if name.len() + 2 <= i < name.len() + 2 + value.len() {
            assert(line[i] == value[i - name.len() - 2]);
        }
    }
    assert(block.skip(line.len() as int) =~= tail);
    if others.len() == 0 {
        assert(block.subrange(last, last + 4) =~= blank_line());
    } else {
        assert forall|i: int| 0 <= i < others.len() implies plain_row(#[trigger] others[i]) by {
            assert(others[i] == rows[i + 1]);
        }
        lemma_first_empty_line(others);
        lemma_find_first(tail, blank_line());
        lemma_occurs_skip(block, blank_line(), line.len() as int, tail.len() - 4);
        assert(is_name_byte(others[0].0[0])) by {
            assert(plain_row(others[0]));
        }
        assert(tail[0] == others[0].0[0]);
    }
    assert forall|j: int| 0 <= j < last implies !#[trigger] occurs_at(block, blank_line(), j) by {
        if occurs_at(block, blank_line(), j) {
            let window = block.subrange(j, j + 4);
            assert(window[0] == block[j] && window[2] == block[j + 2]);
            if j < line.len() {
                assert(block[j] == line[j]);
                if others.len() > 0 {
                    assert(block[j + 2] == tail[0]);
                }
            } else {
                lemma_occurs_skip(block, blank_line(), line.len() as int, j - line.len());
            }
        }
    }
    lemma_find_first_is(block, blank_line(), last);
}

/// A header block ends where it was written to end.
pub proof fn lemma_block_ends_once(rows: Seq<Row>)
    requires
        plain_rows(rows),
    ensures
        block_end(header_block(rows)) == Some(header_block(rows).len() as int),
{
    let block = header_block(rows);
    if rows.len() == 0 {
        assert(block.take(2) =~= crlf());
    } else {
        lemma_first_empty_line(rows);
        assert(plain_row(rows[0]));
        assert(is_name_byte(rows[0].0[0]));
        assert(block.take(2)[0] == rows[0].0[0]);
    }
}

} // verus!
