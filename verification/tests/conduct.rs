//! The answers of single polls, and the laws of the parser on examples.
use bytes::Bytes;
use multipart_async_stream::buffer::chunk_of;
use multipart_async_stream::headers::{
    parse_header_block, part_headers, HeaderScan, RawHeader, MAX_HEADERS,
};
use multipart_async_stream::model::Step;
use multipart_async_stream::whole::{concat_body, read_all, Outcome};
use multipart_async_stream::{
    create_stream_from_chunks, ChunkSource, Error, Incoming, MultipartStream, ParseError, Parser,
    Poll,
};

type Stream = MultipartStream<&'static str>;

fn chunk(bytes: &[u8]) -> Incoming<&'static str> {
    Incoming::Chunk(Bytes::copy_from_slice(bytes))
}

/// A parser for the boundary `b` on a message that has arrived in one chunk.
fn arrived(message: &[u8]) -> Stream {
    MultipartStream::new(create_stream_from_chunks(message, usize::MAX), b"b")
}

/// A parser for the boundary `b` on a stream that is still open.
fn open(message: &[u8]) -> Stream {
    let mut m = MultipartStream::new(ChunkSource::new(), b"b");
    m.push(chunk(message));
    m
}

/// Polls for a part that is expected to be there, and drops it.
fn expect_part(m: &mut Stream) {
    assert!(matches!(m.poll_next_part(), Poll::Ready(Some(Ok(_)))));
}

/// Polls for a piece of a body that is expected to be there.
fn expect_piece(m: &mut Stream) -> Bytes {
    match m.poll_next_body_chunk() {
        Poll::Ready(Some(Ok(bytes))) => bytes,
        other => panic!("no piece: {:?}", other),
    }
}

/// Polls for a piece of a body behind the last one.
fn expect_end_of_body(m: &mut Stream) {
    assert!(matches!(m.poll_next_body_chunk(), Poll::Ready(None)));
}

#[test]
fn behind_the_last_boundary_there_is_nothing() {
    let mut m = arrived(b"--b\r\nA: x\r\n\r\nv\r\n--b--\r\nepilogue --b\r\n");
    expect_part(&mut m);
    assert_eq!(&expect_piece(&mut m)[..], b"v");
    expect_end_of_body(&mut m);
    for _ in 0..3 {
        assert!(matches!(m.poll_next_part(), Poll::Ready(None)));
        assert!(matches!(m.poll_next_body_chunk(), Poll::Ready(None)));
    }
}

#[test]
fn a_refused_request_for_a_part_changes_nothing() {
    let mut m = arrived(b"--b\r\nA: x\r\n\r\nv\r\n--b\r\nA: y\r\n\r\nw\r\n--b--\r\n");
    expect_part(&mut m);
    for _ in 0..2 {
        assert!(matches!(m.poll_next_part(), Poll::Ready(Some(Err(Error::BodyNotConsumed)))));
    }
    assert_eq!(&expect_piece(&mut m)[..], b"v");
    expect_end_of_body(&mut m);
    expect_part(&mut m);
    assert_eq!(&expect_piece(&mut m)[..], b"w");
}

#[test]
fn a_body_is_consumed_once_its_end_was_told() {
    let mut m = arrived(b"--b\r\nA: 1\r\n\r\nv1\r\n--b\r\nA: 2\r\n\r\nv2\r\n--b--\r\n");
    expect_part(&mut m);
    assert_eq!(&expect_piece(&mut m)[..], b"v1");
    for _ in 0..2 {
        assert!(matches!(m.poll_next_part(), Poll::Ready(Some(Err(Error::BodyNotConsumed)))));
    }
    expect_end_of_body(&mut m);
    expect_part(&mut m);
    assert_eq!(&expect_piece(&mut m)[..], b"v2");
    assert!(matches!(m.poll_next_part(), Poll::Ready(Some(Err(Error::BodyNotConsumed)))));
    expect_end_of_body(&mut m);
    assert!(matches!(m.poll_next_part(), Poll::Ready(None)));
}

#[test]
fn between_parts_there_is_no_body() {
    let mut m = arrived(b"--b\r\nA: x\r\n\r\nv\r\n--b\r\nA: y\r\n\r\nw\r\n--b--\r\n");
    assert!(matches!(m.poll_next_body_chunk(), Poll::Ready(None)));
    expect_part(&mut m);
    assert_eq!(&expect_piece(&mut m)[..], b"v");
    assert!(matches!(m.poll_next_body_chunk(), Poll::Ready(None)));
    expect_part(&mut m);
}

#[test]
fn early_termination_is_final() {
    let mut m = arrived(b"no boundary here");
    for _ in 0..3 {
        assert!(matches!(m.poll_next_part(), Poll::Ready(Some(Err(Error::EarlyTerminate)))));
    }
    let mut m = arrived(b"--b\r\nA: x\r\n\r\nv");
    expect_part(&mut m);
    for _ in 0..3 {
        assert!(matches!(m.poll_next_body_chunk(), Poll::Ready(Some(Err(Error::EarlyTerminate)))));
    }
}

#[test]
fn malformed_headers_are_final() {
    let mut m = arrived(b"--b\r\nA x\r\n\r\nv\r\n--b\r\nA: y\r\n\r\nw\r\n--b--\r\n");
    for _ in 0..3 {
        match m.poll_next_part() {
            Poll::Ready(Some(Err(Error::ParseError(ParseError::Other(e))))) => {
                assert_eq!(e, httparse::Error::HeaderName);
            }
            _ => panic!("malformed headers were accepted"),
        }
    }
}

#[test]
fn a_failure_of_the_stream_costs_no_bytes() {
    let mut m = open(b"--b\r");
    m.push(Incoming::Failed("one"));
    m.push(chunk(b"\nA: x\r\n"));
    m.push(Incoming::Failed("two"));
    m.push(chunk(b"\r\nlong enough for a piece"));
    m.push(Incoming::Failed("three"));
    m.push(chunk(b"\r\n--b--"));
    assert!(matches!(m.poll_next_part(), Poll::Ready(Some(Err(Error::StreamError("one"))))));
    assert!(matches!(m.poll_next_part(), Poll::Ready(Some(Err(Error::StreamError("two"))))));
    match m.poll_next_part() {
        Poll::Ready(Some(Ok(part))) => assert_eq!(part.into_headers().get("a").unwrap(), "x"),
        _ => panic!("the part was lost"),
    }
    let (front, end) = concat_body(&mut m);
    assert!(matches!(end, Poll::Ready(Some(Error::StreamError("three")))));
    let (back, end) = concat_body(&mut m);
    assert!(matches!(end, Poll::Ready(None)));
    assert_eq!([front, back].concat(), b"long enough for a piece");
}

#[test]
fn a_pause_costs_no_bytes() {
    let message: &[u8] = b"pre\r\n--b\r\nA: x\r\n\r\nsome body\r\n--b--\r\n";
    let mut m: Stream = MultipartStream::new(ChunkSource::new(), b"b");
    let mut body: Vec<u8> = vec![];
    let mut headers = None;
    let mut finished = false;
    for byte in message {
        m.push(chunk(&[*byte]));
        if headers.is_none() {
            if let Poll::Ready(Some(Ok(part))) = m.poll_next_part() {
                headers = Some(part.into_headers());
            }
        } else if !finished {
            let (piece, end) = concat_body(&mut m);
            body.extend_from_slice(&piece);
            finished = matches!(end, Poll::Ready(None));
        }
    }
    assert!(finished);
    assert_eq!(headers.unwrap().get("a").unwrap(), "x");
    assert_eq!(body, b"some body");
}

#[test]
fn a_source_is_pending_until_it_is_closed() {
    let mut source: ChunkSource<&'static str> = ChunkSource::new();
    assert!(matches!(source.poll_next(), Poll::Pending));
    source.push(chunk(b"x"));
    source.close();
    assert!(matches!(source.poll_next(), Poll::Ready(Incoming::Chunk(_))));
    for _ in 0..2 {
        assert!(matches!(source.poll_next(), Poll::Ready(Incoming::End)));
    }
}

#[test]
fn chunks_are_cut_to_size() {
    let mut source: ChunkSource<&'static str> = create_stream_from_chunks(b"abcdefg", 3);
    for expected in [&b"abc"[..], b"def", b"g"] {
        match source.poll_next() {
            Poll::Ready(Incoming::Chunk(bytes)) => assert_eq!(&bytes[..], expected),
            other => panic!("unexpected {:?}", other),
        }
    }
    assert!(matches!(source.poll_next(), Poll::Ready(Incoming::End)));
}

#[test]
fn a_look_alike_of_the_boundary_belongs_to_the_body() {
    let message: &[u8] = b"--b\r\nA: x\r\n\r\none\r\n--bZZ two\r\n--b--\r\n";
    for size in 1..=message.len() {
        let mut m: Stream = MultipartStream::new(create_stream_from_chunks(message, size), b"b");
        let (parts, outcome) = read_all(&mut m);
        assert!(matches!(outcome, Outcome::Complete), "size {}", size);
        assert_eq!(parts[0].body, b"one\r\n--bZZ two");
    }
}

#[test]
fn a_look_alike_right_before_the_boundary_does_not_hide_it() {
    let mut m = arrived(b"--b\r\nA: 1\r\n\r\nx\r\n--bZZ\r\n--b--\r\n");
    expect_part(&mut m);
    assert_eq!(&expect_piece(&mut m)[..], b"x\r\n--bZZ");
    expect_end_of_body(&mut m);
    assert!(matches!(m.poll_next_part(), Poll::Ready(None)));

    // Look-alikes of every length, one behind the other.
    let message: &[u8] = b"--b\r\n\r\n\r\n--b\r\r\n--b-\r\n--b\n\r\n--bb\r\n--b\r\nA: y\r\n\r\nw\r\n--b--";
    for size in 1..=message.len() {
        let mut m: Stream = MultipartStream::new(create_stream_from_chunks(message, size), b"b");
        let (parts, outcome) = read_all(&mut m);
        assert!(matches!(outcome, Outcome::Complete), "size {}", size);
        assert_eq!(parts[0].body, b"\r\n--b\r\r\n--b-\r\n--b\n\r\n--bb");
        assert_eq!(parts[1].body, b"w");
    }
}

/// What a step hands out of a body with this front, and how much it holds then.
fn piece_of(front: &[u8]) -> (Bytes, usize) {
    let mut parser = Parser::new(b"b");
    assert!(parser.receive(chunk(b"--b\r\n\r\n")).is_none());
    assert!(matches!(parser.part_step::<&str>(), Step::Return(Some(Ok(_)))));
    assert!(parser.receive(chunk(front)).is_none());
    match parser.body_step::<&str>() {
        Step::Return(Some(Ok(piece))) => (piece, parser.buffered_len()),
        _ => panic!("no piece"),
    }
}

#[test]
fn only_the_start_of_a_delimiter_is_held_back() {
    // Look-alikes are gone past in one step.
    let (piece, held) = piece_of(b"\r\n--bZZ\r\n--bYYaaaaaaaa");
    assert_eq!(&piece[..], b"\r\n--bZZ\r\n--bYYaaaa");
    assert_eq!(held, 4);
    // So they are where a mark behind them is not decided yet.
    let (piece, held) = piece_of(b"\r\n--bZZ\r\n--bYYaa\r\n--b");
    assert_eq!(&piece[..], b"\r\n--bZZ\r\n--bYYaa");
    assert_eq!(held, 5);
    let (piece, held) = piece_of(b"\r\n--bZZ\r\n--b-");
    assert_eq!(&piece[..], b"\r\n--bZZ");
    assert_eq!(held, 6);
    // And where a delimiter follows.
    let (piece, held) = piece_of(b"\r\n--bZZ\r\n--bYY\r\n--b\r\nA: x");
    assert_eq!(&piece[..], b"\r\n--bZZ\r\n--bYY");
    assert_eq!(held, 11);
    let (piece, held) = piece_of(b"no mark at all");
    assert_eq!(&piece[..], b"no mark at");
    assert_eq!(held, 4);
}

#[test]
fn a_boundary_opens_a_part_behind_text_on_its_line() {
    let mut m = arrived(b"text --b\r\nA: x\r\n\r\nv\r\n--b--");
    expect_part(&mut m);
    assert_eq!(&expect_piece(&mut m)[..], b"v");
}

#[test]
fn a_part_with_too_many_headers_is_refused() {
    let mut message = String::from("--b\r\n");
    for i in 0..=MAX_HEADERS {
        message.push_str(&format!("X-{}: {}\r\n", i, i));
    }
    message.push_str("\r\nv\r\n--b--");
    let mut m = arrived(message.as_bytes());
    match m.poll_next_part() {
        Poll::Ready(Some(Err(Error::ParseError(ParseError::Other(e))))) => {
            assert_eq!(e, httparse::Error::TooManyHeaders);
        }
        _ => panic!("too many headers were accepted"),
    }
}

#[test]
fn a_part_needs_no_header_lines() {
    let message: &[u8] = b"--b\r\n\r\nhi\r\n--b\r\n\r\n\r\n--b\r\n\r\n\r\n\r\n\r\n--b--\r\n";
    for size in 1..=message.len() {
        let mut m: Stream = MultipartStream::new(create_stream_from_chunks(message, size), b"b");
        let (parts, outcome) = read_all(&mut m);
        assert!(matches!(outcome, Outcome::Complete), "size {}", size);
        assert_eq!(parts.len(), 3);
        assert!(parts.iter().all(|part| part.headers.is_empty()));
        assert_eq!(parts[0].body, b"hi");
        assert_eq!(parts[1].body, b"");
        assert_eq!(parts[2].body, b"\r\n\r\n");
    }
}

#[test]
fn half_an_end_of_line_decides_nothing() {
    let mut m = open(b"--b\r\n\r");
    assert!(matches!(m.poll_next_part(), Poll::Pending));
    m.push(chunk(b"\n"));
    match m.poll_next_part() {
        Poll::Ready(Some(Ok(part))) => assert!(part.headers().is_empty()),
        _ => panic!("no part"),
    }
}

#[test]
fn a_message_without_parts_terminates_early() {
    let mut m = arrived(b"--b--\r\n");
    assert!(matches!(m.poll_next_part(), Poll::Ready(Some(Err(Error::EarlyTerminate)))));
}

#[test]
fn a_form_is_read_back_in_chunks_of_any_size() {
    let message: &[u8] = b"a preamble\r\n\
        --b\r\n\
        Accept: one\r\n\
        X-Empty: \r\n\
        ACCEPT: two\r\n\
        \r\n\
        first\r\nbody\r\n\
        --b\r\n\
        Last: \xff\t!\r\n\
        \r\n\
        \r\n\
        --b--an epilogue";
    for size in 1..=message.len() {
        let mut m: Stream = MultipartStream::new(create_stream_from_chunks(message, size), b"b");
        let (parts, outcome) = read_all(&mut m);
        assert!(matches!(outcome, Outcome::Complete));
        assert_eq!(parts.len(), 2);
        let accepts: Vec<_> = parts[0].headers.get_all("accept").iter().collect();
        assert_eq!(accepts, ["one", "two"]);
        assert_eq!(parts[0].headers.get("x-empty").unwrap(), "");
        assert_eq!(parts[0].headers.keys_len(), 2);
        assert_eq!(parts[0].body, b"first\r\nbody");
        assert_eq!(parts[1].headers.get("last").unwrap().as_bytes(), b"\xff\t!");
        assert!(parts[1].body.is_empty());
    }
}

#[test]
fn a_part_may_carry_as_many_headers_as_the_limit() {
    let block = |count: usize| {
        let mut block = String::new();
        for i in 0..count {
            block.push_str(&format!("X-{}: {}\r\n", i, i));
        }
        block.push_str("\r\n");
        block
    };
    let headers = parse_header_block(block(MAX_HEADERS).as_bytes()).unwrap();
    assert_eq!(headers.len(), 64);
    assert_eq!(headers.get("x-63").unwrap(), "63");
    match parse_header_block(block(MAX_HEADERS + 1).as_bytes()) {
        Err(ParseError::Other(e)) => assert_eq!(e, httparse::Error::TooManyHeaders),
        other => panic!("unexpected {:?}", other),
    }
}

#[test]
fn blanks_around_a_header_value_are_dropped() {
    let headers = parse_header_block(b"A:  \t one two \t\r\nb:three\r\n\r\n").unwrap();
    assert_eq!(headers.get("a").unwrap(), "one two");
    assert_eq!(headers.get("b").unwrap(), "three");
}

#[test]
fn a_header_block_that_breaks_off_is_partial() {
    assert!(matches!(parse_header_block(b"A: x"), Err(ParseError::TryParsePartial)));
    assert!(matches!(part_headers(HeaderScan::Partial), Err(ParseError::TryParsePartial)));
}

#[test]
fn a_control_character_in_a_header_value_is_refused() {
    match parse_header_block(b"A: x\x01y\r\n\r\n") {
        Err(ParseError::Other(e)) => assert_eq!(e, httparse::Error::HeaderValue),
        other => panic!("unexpected {:?}", other),
    }
}

#[test]
fn rows_that_are_no_headers_are_left_out() {
    let row = |name: &str, value: &str| RawHeader {
        name: name.as_bytes().to_vec(),
        value: value.as_bytes().to_vec(),
    };
    let rows = vec![
        row("A", "1"),
        row("no name", "2"),
        row("B", "no\x01value"),
        row("a", "3"),
        row("", "unused"),
        row("C", "behind the unused row"),
    ];
    let headers = part_headers(HeaderScan::Complete(rows)).unwrap();
    let values: Vec<_> = headers.get_all("A").iter().collect();
    assert_eq!(values, ["1", "3"]);
    assert_eq!(headers.len(), 2);
}

#[test]
fn a_name_that_is_too_long_for_a_header_is_left_out() {
    let block = |len: usize| format!("{}: x\r\nB: y\r\n\r\n", "n".repeat(len));
    let headers = parse_header_block(block(65535).as_bytes()).unwrap();
    assert_eq!(headers.len(), 2);
    let headers = parse_header_block(block(65536).as_bytes()).unwrap();
    assert_eq!(headers.len(), 1);
    assert_eq!(headers.get("b").unwrap(), "y");
}

#[test]
fn the_parser_can_be_driven_step_by_step() {
    let mut parser = Parser::new(b"b");
    assert!(matches!(parser.part_step::<&str>(), Step::Await));
    assert!(parser.receive(chunk(b"--b\r\nA: x")).is_none());
    assert_eq!(parser.buffered_len(), 9);
    // The boundary line is found, the headers are not complete.
    assert!(matches!(parser.part_step::<&str>(), Step::Await));
    assert_eq!(parser.buffered_len(), 4);
    assert!(matches!(
        parser.receive(Incoming::Failed("late")),
        Some(Error::StreamError("late"))
    ));
    assert!(parser.receive(chunk(b"\r\n\r\nv\r\n--b--")).is_none());
    match parser.part_step::<&str>() {
        Step::Return(Some(Ok(headers))) => assert_eq!(headers.get("a").unwrap(), "x"),
        _ => panic!("no part"),
    }
    assert!(matches!(
        parser.part_step::<&str>(),
        Step::Return(Some(Err(Error::BodyNotConsumed)))
    ));
    match parser.body_step::<&str>() {
        Step::Return(Some(Ok(piece))) => assert_eq!(&piece[..], b"v"),
        _ => panic!("no body"),
    }
    assert_eq!(parser.buffered_len(), 0);
    assert!(matches!(
        parser.part_step::<&str>(),
        Step::Return(Some(Err(Error::BodyNotConsumed)))
    ));
    assert!(matches!(parser.body_step::<&str>(), Step::Return(None)));
    assert!(matches!(parser.body_step::<&str>(), Step::Return(None)));
    assert!(matches!(parser.part_step::<&str>(), Step::Return(None)));
}

#[test]
fn a_body_takes_no_more_memory_than_a_boundary_and_some_chunks() {
    // The pattern of the boundary has seven bytes.
    let size = 50;
    let limit = 7 + size;
    let mut parser = Parser::new(b"b");
    assert!(parser.receive(chunk(b"--b\r\nA: x\r\n\r\n")).is_none());
    assert!(matches!(parser.part_step::<&str>(), Step::Return(Some(Ok(_)))));
    let mut handed_out = 0;
    for _ in 0..1000 {
        assert!(parser.receive(chunk(&vec![b'x'; size])).is_none());
        loop {
            match parser.body_step::<&str>() {
                Step::Return(Some(Ok(piece))) => {
                    assert!(!piece.is_empty());
                    assert!(piece.len() <= limit + size + 1);
                    handed_out += piece.len();
                    assert!(parser.buffered_len() <= limit);
                }
                Step::Await => break,
                _ => panic!("unexpected answer"),
            }
        }
    }
    assert_eq!(handed_out + parser.buffered_len(), 1000 * size);
}

#[test]
fn a_preamble_takes_no_more_memory_than_a_boundary_and_a_chunk() {
    let size = 50;
    let mut parser = Parser::new(b"b");
    for _ in 0..1000 {
        assert!(parser.receive(chunk(&vec![b'x'; size])).is_none());
        assert!(parser.buffered_len() <= 4 + size);
        assert!(matches!(parser.part_step::<&str>(), Step::Await));
        // One byte less than a boundary line.
        assert_eq!(parser.buffered_len(), 4);
    }
    assert!(parser.receive(chunk(b"--b\r\n\r\n")).is_none());
    assert!(matches!(parser.part_step::<&str>(), Step::Return(Some(Ok(_)))));
}

#[test]
fn a_preamble_is_ignored() {
    let rest: &[u8] = b"--b\r\nA: x\r\n\r\nv\r\n--bZ\r\n--b--\r\n";
    for preamble in [&b"\r\n"[..], b"--\r\n", b"--b--\r\n", b"--b \r\n", b"two\r\nlines\r\n"] {
        let message = [preamble, rest].concat();
        for size in 1..=message.len() {
            let mut m: Stream =
                MultipartStream::new(create_stream_from_chunks(&message, size), b"b");
            let (parts, outcome) = read_all(&mut m);
            assert!(matches!(outcome, Outcome::Complete));
            assert_eq!(parts.len(), 1);
            assert_eq!(parts[0].headers.get("a").unwrap(), "x");
            assert_eq!(parts[0].body, b"v\r\n--bZ");
        }
    }
}

#[test]
fn taking_the_headers_leaves_the_body() {
    let mut m = arrived(b"--b\r\nA: x\r\n\r\nv\r\n--b--");
    match m.poll_next_part() {
        Poll::Ready(Some(Ok(part))) => {
            let headers = part.headers().clone();
            assert_eq!(part.into_headers(), headers);
        }
        _ => panic!("no part"),
    }
    assert_eq!(&expect_piece(&mut m)[..], b"v");
}

#[test]
fn a_chunk_has_the_bytes_it_was_made_of() {
    assert_eq!(&chunk_of(b"bytes")[..], b"bytes");
    assert!(chunk_of(b"").is_empty());
}

#[test]
fn bytes_behind_the_closing_boundary_are_not_kept() {
    let mut m = arrived(b"--b\r\nA: x\r\n\r\nv\r\n--b--\r\n--b\r\nA: y\r\n\r\nw\r\n--b--\r\n");
    let (parts, outcome) = read_all(&mut m);
    assert_eq!(parts.len(), 1);
    assert!(matches!(outcome, Outcome::Complete));
}

#[test]
fn a_part_is_given_out_as_soon_as_its_headers_are_there() {
    let mut m = open(b"--b\r\nA: 1\r\n\r\n");
    match m.poll_next_part() {
        Poll::Ready(Some(Ok(part))) => assert_eq!(part.headers().get("a").unwrap(), "1"),
        _ => panic!("the part was held back"),
    }
}

#[test]
fn a_failure_in_the_search_for_a_part_changes_no_later_part() {
    let pieces: [&[u8]; 4] = [b"pre\r\n--", b"b\r\nA: x\r", b"\n\r\nv\r\n--b\r\nA: y\r\n\r\n", b"w\r\n--b--"];
    for failing in 0..2 {
        let mut m: Stream = MultipartStream::new(ChunkSource::new(), b"b");
        for (i, piece) in pieces.iter().enumerate() {
            m.push(chunk(piece));
            if i == failing {
                m.push(Incoming::Failed("broken"));
            }
        }
        assert!(matches!(m.poll_next_part(), Poll::Ready(Some(Err(Error::StreamError("broken"))))));
        let (parts, outcome) = read_all(&mut m);
        assert!(matches!(outcome, Outcome::Complete));
        assert_eq!(parts.len(), 2);
        assert_eq!(parts[0].headers.get("a").unwrap(), "x");
        assert_eq!(parts[0].body, b"v");
        assert_eq!(parts[1].headers.get("a").unwrap(), "y");
        assert_eq!(parts[1].body, b"w");
    }
}

#[test]
fn an_open_stream_leaves_a_reading_pending() {
    let mut m = open(b"--b\r\n");
    m.push(chunk(b"A: x\r\n\r\nv\r\n--b\r\nA: y\r\n"));
    let (parts, outcome) = read_all(&mut m);
    assert_eq!(parts.len(), 1);
    assert_eq!(parts[0].body, b"v");
    assert!(matches!(outcome, Outcome::Pending));
    m.push(chunk(b"\r\nw\r\n--b--"));
    let (parts, outcome) = read_all(&mut m);
    assert_eq!(parts[0].headers.get("a").unwrap(), "y");
    assert_eq!(parts[0].body, b"w");
    assert!(matches!(outcome, Outcome::Complete));
}

#[test]
fn a_failing_stream_ends_a_reading() {
    let mut m = open(b"--b\r\n");
    m.push(chunk(b"A: x\r\n\r\nv\r\n--b\r\n"));
    m.push(Incoming::Failed("broken"));
    let (parts, outcome) = read_all(&mut m);
    assert_eq!(parts.len(), 1);
    assert!(matches!(outcome, Outcome::Failed(Error::StreamError("broken"))));
}
