//! Made-up messages: what they are, and what comes of reading them.
use multipart_async_stream::cases::{
    boundary_case, do_fuzz, do_fuzz_boundary_edge_cases, do_fuzz_headers, do_fuzz_random,
    header_case, random_case, read_in_chunks, stream_case, Case,
};
use multipart_async_stream::samples::generate_multipart_stream;
use multipart_async_stream::whole::Outcome;
use multipart_async_stream::Error;
use std::convert::Infallible;

/// A byte for a boundary of five bytes, those bytes, the number of parts less
/// one, and a tape.
fn tape(more_parts: u8, tape: &[u8]) -> Vec<u8> {
    let mut data = vec![0];
    data.extend_from_slice(b"abcd!");
    data.push(more_parts);
    data.extend_from_slice(tape);
    data
}

#[test]
fn too_little_data_makes_no_message() {
    assert!(generate_multipart_stream(b"").is_none());
    assert!(generate_multipart_stream(b"\x00ab").is_none());
    assert!(generate_multipart_stream(b"\x00abcd").is_none());
    assert!(generate_multipart_stream(b"\x00abcd!").is_none());
    assert!(generate_multipart_stream(b"\x00abcd!\x00").is_some());
    assert!(do_fuzz::<Infallible>(b"\x00abcd!").is_none());
}

#[test]
fn a_part_without_headers_is_made_up() {
    let data = tape(0, b"\x01hi!");
    let stream = generate_multipart_stream(&data).unwrap();
    assert_eq!(stream, b"--abcdX\r\n\r\nhi\r\n--abcdX--\r\n");
}

#[test]
fn an_exhausted_tape_makes_empty_parts() {
    let data = tape(1, b"");
    let stream = generate_multipart_stream(&data).unwrap();
    assert_eq!(stream, b"--abcdX\r\n\r\n\r\n--abcdX\r\n\r\n\r\n--abcdX--\r\n");
}

#[test]
fn a_body_that_the_tape_cannot_fill_is_empty() {
    // Ten bytes are asked for, only the length byte is there.
    let data = tape(0, b"\x0b");
    let stream = generate_multipart_stream(&data).unwrap();
    assert_eq!(stream, b"--abcdX\r\n\r\n\r\n--abcdX--\r\n");
}

#[test]
fn a_preamble_headers_and_a_bait_are_made_up() {
    let data = tape(0, b"\x03pre!\x02\x03\x05\x140123456789abcdefghijk");
    let stream = generate_multipart_stream(&data).unwrap();
    let expected: &[u8] = b"pre!\r\n\
        --abcdX\r\n\
        Content-Disposition: form-data; name=\"field0\"\r\n\
        Content-Type: text/plain\r\n\
        X-Custom-Header: value\r\n\
        \r\n\
        0123456789abcdefghijk --abcdX \r\n\
        --abcdX--\r\n";
    assert_eq!(stream, expected);
}

#[test]
fn a_preamble_that_the_tape_cannot_fill_is_left_out() {
    let data = tape(0, b"\x03ab");
    let stream = generate_multipart_stream(&data).unwrap();
    // The length byte is used up, `a` and `b` go to the part.
    assert_eq!(
        stream,
        b"--abcdX\r\n\r\n\r\n--abcdX--\r\n"
    );
}

#[test]
fn the_second_part_has_its_number_and_no_bait() {
    let data = tape(1, b"\x01hi\x02\x01\x140123456789abcdefghijk");
    let stream = generate_multipart_stream(&data).unwrap();
    let expected: &[u8] = b"--abcdX\r\n\
        \r\n\
        hi\r\n\
        --abcdX\r\n\
        Content-Disposition: form-data; name=\"field1\"\r\n\
        \r\n\
        \x140\r\n\
        --abcdX--\r\n";
    assert_eq!(stream, expected);
}

#[test]
fn the_boundary_of_a_stream_case_is_taken_from_the_stream() {
    let case = stream_case(&tape(0, b"\x01hi!")).unwrap();
    assert_eq!(case.boundary, b"abcdX");
    assert_eq!(case.body, b"--abcdX\r\n\r\nhi\r\n--abcdX--\r\n");

    // A preamble is taken for the first boundary line, and cut off.
    let case = stream_case(&tape(0, b"\x03pre!\x01hi!")).unwrap();
    assert_eq!(case.boundary, b"e!");
    assert_eq!(case.body, b"--abcdX\r\n\r\nhi\r\n--abcdX--\r\n");

    // Where a line ends right behind two bytes there is no boundary.
    assert!(stream_case(&tape(0, b"\x03ab\rd\x01hi!")).is_none());
}

#[test]
fn a_made_up_message_is_read_in_seven_ways() {
    let readings = do_fuzz::<Infallible>(&tape(0, b"\x02\x01hi!")).unwrap();
    assert_eq!(readings.len(), 7);
    for (parts, outcome) in &readings {
        assert!(matches!(outcome, Outcome::Complete));
        assert_eq!(parts.len(), 1);
        assert_eq!(
            parts[0].headers.get("content-disposition").unwrap(),
            "form-data; name=\"field0\""
        );
        assert_eq!(parts[0].body, b"hi");
    }
}

/// A made-up message is valid, with or without headers, preamble and bait.
#[test]
fn made_up_messages_are_valid() {
    let data = tape(2, b"\x03pre!\x01hi\x02\x03\x05\x140123456789abcdefghijk\x01by");
    let body = generate_multipart_stream(&data).unwrap();
    let case = Case { boundary: b"abcdX".to_vec(), body };
    for (parts, outcome) in read_in_chunks::<Infallible>(&case, &[1, 2, 3, 5, 1000]) {
        assert!(matches!(outcome, Outcome::Complete));
        assert_eq!(parts.len(), 3);
        assert!(parts[0].headers.is_empty());
        assert_eq!(parts[0].body, b"hi");
        assert_eq!(parts[1].headers.len(), 3);
        assert_eq!(parts[1].headers.get("x-custom-header").unwrap(), "value");
        assert_eq!(parts[1].body, b"0123456789abcdefghijk");
        assert!(parts[2].headers.is_empty());
        assert_eq!(parts[2].body, b"by");
    }
}

#[test]
fn odd_headers_are_made_up() {
    let case = header_case(b"\x00abcd!\x01\x01\x02v\r\x01z").unwrap();
    assert_eq!(case.boundary, b"abcdX");
    assert_eq!(
        case.body,
        b"--abcdX\r\nContent-Type: v\r\n ?\r\n\r\nbody\r\n--abcdX--\r\n"
    );
    let case = header_case(b"\x00abcd!\x01\x03\x02\n\x7fy").unwrap();
    assert_eq!(
        case.body,
        b"--abcdX\r\nCache-Control: \n ?y\r\n\r\nbody\r\n--abcdX--\r\n"
    );
}

#[test]
fn made_up_header_lines_overlap_and_stop_with_the_data() {
    // The second line starts two bytes behind the first; there is no third.
    let case = header_case(b"\x00abcd!\x03\x00\x09\x02\x04xy").unwrap();
    assert_eq!(
        case.body,
        b"--abcdX\r\n\
          Content-Disposition: ??xy\r\n\
          X-Custom-Header: xy\r\n\
          \r\nbody\r\n--abcdX--\r\n"
    );
    let case = header_case(b"\x05abcdefghij").unwrap();
    assert_eq!(case.boundary, b"abcdefghij");
    assert_eq!(case.body, b"--abcdefghij\r\n\r\nbody\r\n--abcdefghij--\r\n");
    let names: [&[u8]; 5] = [
        b"Content-Disposition",
        b"Content-Type",
        b"X-Custom-Header",
        b"Cache-Control",
        b"Content-Transfer-Encoding",
    ];
    for (i, name) in names.iter().enumerate() {
        let mut data = b"\x00abcde\x01".to_vec();
        data.extend_from_slice(&[i as u8, 0, b'v']);
        let case = header_case(&data).unwrap();
        assert!(case.body[9..].starts_with(name));
    }
    assert!(header_case(b"\x00abcdefgh").is_none());
    assert!(header_case(b"\x06abcdefghij").is_none());
}

#[test]
fn odd_headers_are_read_in_eight_ways() {
    let readings = do_fuzz_headers::<Infallible>(b"\x00abcde\x01\x01\x02vwx").unwrap();
    assert_eq!(readings.len(), 8);
    for (parts, outcome) in &readings {
        assert!(matches!(outcome, Outcome::Complete));
        assert_eq!(parts[0].headers.get("content-type").unwrap(), "vwx");
        assert_eq!(parts[0].body, b"body");
    }
    // A folded line is refused.
    let readings = do_fuzz_headers::<Infallible>(b"\x00abcde\x01\x01\x02v\rx").unwrap();
    for (parts, outcome) in &readings {
        assert!(parts.is_empty());
        assert!(matches!(outcome, Outcome::Failed(Error::ParseError(_))));
    }
    assert!(do_fuzz_headers::<Infallible>(b"short").is_none());
}

#[test]
fn odd_boundaries_are_made_up() {
    let boundary = |data: &[u8]| boundary_case(data).unwrap().boundary;
    assert_eq!(boundary(b"\x00\x00000"), b"a");
    assert_eq!(boundary(b"\x01\x00000"), vec![b'a'; 70]);
    assert_eq!(
        boundary(b"\x02\x00\xe9AB"),
        b"\x00\xc3\xa9AB-boundary-xxxxx"
    );
    assert_eq!(
        boundary(b"\x02abcdefghijklmnopqrstuvwxyz"),
        b"abcdefghijklmnopqrst-boundary-xxxxx"
    );
    assert_eq!(boundary(b"\x03\x00000"), b"---___---");
    assert_eq!(boundary(b"\x04\x00000"), b"a\r\nb");
    assert_eq!(boundary(b"\x05\x00000"), b"-boundary-");
    assert_eq!(boundary(b"\x06\x00000"), b"abcabcabc");
    assert_eq!(boundary(b"\x0f\x00000"), b"BoUnDaRy123");
    assert!(boundary_case(b"\x00\x0000").is_none());
}

#[test]
fn parts_with_odd_boundaries_are_made_up() {
    assert_eq!(boundary_case(b"\x00\x00000").unwrap().body, b"--a--\r\n");
    assert_eq!(
        boundary_case(b"\x03\x01000").unwrap().body,
        b"-----___---\r\n\
          Content-Disposition: form-data; name=\"field0\"\r\n\
          default body\r\n\
          -----___-----\r\n"
    );
    // The bait takes the place of the second half, unless that is long.
    assert_eq!(
        boundary_case(b"\x00\x0100000000abcdefgh").unwrap().body,
        b"--a\r\n\
          Content-Disposition: form-data; name=\"field0\"\r\n\
          abcd --a \r\n\
          --a--\r\n"
    );
    assert_eq!(
        boundary_case(b"\x00\x0200000000abcdefghij0123").unwrap().body,
        b"--a\r\n\
          Content-Disposition: form-data; name=\"field0\"\r\n\
          abcdefg --a hij0123\r\n\
          --a\r\n\
          Content-Disposition: form-data; name=\"field1\"\r\n\
          0123\r\n\
          --a--\r\n"
    );
}

#[test]
fn odd_boundaries_are_tried_in_ten_ways() {
    // No empty line ends the headers, so no part is ever found.
    let readings = do_fuzz_boundary_edge_cases::<Infallible>(b"\x03\x01000").unwrap();
    assert_eq!(readings.len(), 10);
    for (parts, outcome) in &readings {
        assert!(parts.is_empty());
        assert!(matches!(outcome, Outcome::Failed(Error::EarlyTerminate)));
    }
    assert!(do_fuzz_boundary_edge_cases::<Infallible>(b"\x03\x0100").is_none());
}

#[test]
fn noise_is_taken_as_it_is() {
    let case = random_case(b"0123456789abcdef\r\n--noise").unwrap();
    assert_eq!(case.boundary, b"0123456789abcdef");
    assert_eq!(case.body, b"\r\n--noise");
    assert!(random_case(b"0123456789abcdefghi").is_none());

    let readings = do_fuzz_random::<Infallible>(b"0123456789abcdef\r\n--noise").unwrap();
    assert_eq!(readings.len(), 7);
    for (parts, outcome) in &readings {
        assert!(parts.is_empty());
        assert!(matches!(outcome, Outcome::Failed(Error::EarlyTerminate)));
    }
    assert!(do_fuzz_random::<Infallible>(b"0123456789abcdefghi").is_none());
}

#[test]
fn a_case_is_read_once_for_each_size() {
    let case = Case {
        boundary: b"b".to_vec(),
        body: b"--b\r\nA: x\r\n\r\none\r\n--b\r\nB: y\r\n\r\ntwo".to_vec(),
    };
    let readings = read_in_chunks::<Infallible>(&case, &[1, 2, 100]);
    assert_eq!(readings.len(), 3);
    for (parts, outcome) in &readings {
        assert_eq!(parts.len(), 1);
        assert_eq!(parts[0].body, b"one");
        match outcome {
            Outcome::BodyFailed(headers, Error::EarlyTerminate) => {
                assert_eq!(headers.get("b").unwrap(), "y");
            }
            other => panic!("unexpected outcome {:?}", other),
        }
    }
}
