//! Parsing of whole messages, cut into chunks in various ways.
use bytes::Bytes;
use multipart_async_stream::{
    create_stream_from_chunks, Body, Error, MultipartStream, ParseError, Part, Poll,
};
use std::convert::Infallible;
use tokio::runtime::Builder;

/// The next part; all chunks are there from the start, so there is no waiting.
fn next(
    m: &mut MultipartStream<Infallible>,
) -> Option<Result<Part<'_, Infallible>, Error<Infallible>>> {
    match m.poll_next_part() {
        Poll::Ready(answer) => answer,
        Poll::Pending => panic!("a closed stream is never pending"),
    }
}

/// The next piece of a body.
fn try_next(body: &mut Body<'_, Infallible>) -> Result<Option<Bytes>, Error<Infallible>> {
    match body.poll_next() {
        Poll::Ready(Some(Ok(chunk))) => Ok(Some(chunk)),
        Poll::Ready(Some(Err(e))) => Err(e),
        Poll::Ready(None) => Ok(None),
        Poll::Pending => panic!("a closed stream is never pending"),
    }
}

/// A body to its end.
fn concat_body(mut body: Body<'_, Infallible>) -> Result<Vec<u8>, Error<Infallible>> {
    let mut acc = vec![];
    while let Some(chunk) = try_next(&mut body)? {
        acc.extend_from_slice(&chunk);
    }
    Ok(acc)
}

#[test]
fn test_single_part_full_chunk() {
    const BOUNDARY: &str = "boundary";
    const CONTENT: &[u8] = b"\
--boundary\r\n\
Content-Disposition: form-data; name=\"field1\"\r\n\
\r\n\
value1\r\n\
--boundary--\r\n";
    let stream = create_stream_from_chunks(CONTENT, CONTENT.len());
    let mut m = MultipartStream::new(stream, BOUNDARY.as_bytes());
    while let Some(Ok(part)) = next(&mut m) {
        assert_eq!(part.headers().get("content-disposition").unwrap(), "form-data; name=\"field1\"");
        assert_eq!(&concat_body(part.body()).unwrap(), b"value1")
    }
}

#[test]
fn test_multiple_parts_small_chunks() {
    const BOUNDARY: &str = "X-BOUNDARY";
    const BODY: &[u8] = b"\
--X-BOUNDARY\r\n\
Content-Disposition: form-data; name=\"field1\"\r\n\
\r\n\
value1\r\n\
--X-BOUNDARY\r\n\
Content-Disposition: form-data; name=\"field2\"\r\n\
Content-Type: text/plain\r\n\
\r\n\
value2 with CRLF\r\n\r\n\
--X-BOUNDARY--\r\n";

    // Use a very small chunk size to force test buffer logic
    let stream = create_stream_from_chunks(BODY, 5);
    let mut multipart_stream = MultipartStream::new(stream, BOUNDARY.as_bytes());

    // Parse the first part
    let part1 = next(&mut multipart_stream).unwrap().unwrap();
    assert_eq!(part1.headers().get("content-disposition").unwrap(), "form-data; name=\"field1\"");
    assert!(!part1.headers().contains_key("content-type"));
    assert_eq!(&concat_body(part1.body()).unwrap(), b"value1");

    // Parse the second part
    let part2 = next(&mut multipart_stream).unwrap().unwrap();
    assert_eq!(part2.headers().get("content-disposition").unwrap(), "form-data; name=\"field2\"");
    assert_eq!(part2.headers().get("content-type").unwrap(), "text/plain");
    let body = concat_body(part2.body()).unwrap();
    assert_eq!(&body, b"value2 with CRLF\r\n");
    // Should have reached the end of the stream
    let result = next(&mut multipart_stream);
    assert!(result.is_none());
}

#[test]
fn test_with_preamble_and_no_final_crlf() {
    const BOUNDARY: &str = "boundary";
    const BODY: &[u8] = b"\
This is a preamble and should be ignored.\r\n\
--boundary\r\n\
Content-Disposition: form-data; name=\"field1\"\r\n\
\r\n\
value1\r\n\
--boundary--";

    let stream = create_stream_from_chunks(BODY, BODY.len());
    let mut multipart_stream = MultipartStream::new(stream, BOUNDARY.as_bytes());

    let part = next(&mut multipart_stream).unwrap().unwrap();
    assert_eq!(part.headers().get("content-disposition").unwrap(), "form-data; name=\"field1\"");
    let body = concat_body(part.body()).unwrap();
    assert_eq!(&body, b"value1");
    // Should have reached the end of the stream
    let result = next(&mut multipart_stream);
    assert!(result.is_none());
}

#[test]
fn test_early_terminate_in_body() {
    const BOUNDARY: &str = "boundary";
    const BODY: &[u8] = b"\
--boundary\r\n\
Content-Disposition: form-data; name=\"field1\"\r\n\
\r\n\
value1 is not complete";

    let stream = create_stream_from_chunks(BODY, BODY.len());
    let mut multipart_stream = MultipartStream::new(stream, BOUNDARY.as_bytes());

    let part = next(&mut multipart_stream).unwrap().unwrap();

    let result = concat_body(part.body());
    assert!(matches!(result, Err(Error::EarlyTerminate)));
}

#[test]
fn test_early_terminate_in_headers() {
    const BOUNDARY: &str = "boundary";
    const BODY: &[u8] = b"\
--boundary\r\n\
Content-Disposition: form-data; na";

    let stream = create_stream_from_chunks(BODY, BODY.len());
    let mut multipart_stream = MultipartStream::new(stream, BOUNDARY.as_bytes());

    let result = next(&mut multipart_stream);
    assert!(matches!(result, Some(Err(Error::EarlyTerminate))));
}

#[test]
fn test_empty_stream() {
    const BOUNDARY: &str = "boundary";
    const BODY: &[u8] = b"";

    let stream = create_stream_from_chunks(BODY, 10);
    let mut multipart_stream = MultipartStream::new(stream, BOUNDARY.as_bytes());

    let result = next(&mut multipart_stream);
    assert!(matches!(result, Some(Err(Error::EarlyTerminate))));
}

#[test]
fn test_part_with_empty_body() {
    const BOUNDARY: &str = "boundary";
    const BODY: &[u8] = b"\
--boundary\r\n\
Content-Disposition: form-data; name=\"field1\"\r\n\
\r\n\
value1\r\n\
--boundary\r\n\
Content-Disposition: form-data; name=\"empty_field\"\r\n\
\r\n\
\r\n\
--boundary\r\n\
Content-Disposition: form-data; name=\"field2\"\r\n\
\r\n\
value2\r\n\
--boundary--\r\n";

    let stream = create_stream_from_chunks(BODY, 15); // Use small chunks
    let mut multipart_stream = MultipartStream::new(stream, BOUNDARY.as_bytes());
    let part1 = next(&mut multipart_stream).unwrap().unwrap();
    assert_eq!(part1.headers().get("content-disposition").unwrap(), "form-data; name=\"field1\"");
    assert_eq!(&concat_body(part1.body()).unwrap(), b"value1");

    let part2 = next(&mut multipart_stream).unwrap().unwrap();
    assert_eq!(part2.headers().get("content-disposition").unwrap(), "form-data; name=\"empty_field\"");
    let body = concat_body(part2.body()).unwrap();
    assert!(body.is_empty());

    let part3 = next(&mut multipart_stream).unwrap().unwrap();
    assert_eq!(part3.headers().get("content-disposition").unwrap(), "form-data; name=\"field2\"");
    assert_eq!(&concat_body(part3.body()).unwrap(), b"value2");

    let result = next(&mut multipart_stream);
    assert!(result.is_none());
}

#[test]
fn test_body_not_consumed_error() {
    const BOUNDARY: &str = "boundary";
    const BODY: &[u8] = b"\
--boundary\r\n\
Content-Disposition: form-data; name=\"field1\"\r\n\
\r\n\
value1\r\n\
--boundary\r\n\
Content-Disposition: form-data; name=\"field2\"\r\n\
\r\n\
value2\r\n\
--boundary--\r\n";

    let stream = create_stream_from_chunks(BODY, BODY.len());
    let mut m = MultipartStream::new(stream, BOUNDARY.as_bytes());

    // Get the first part, but don't consume its body
    let _part1 = next(&mut m).unwrap().unwrap();

    // Trying to get the next part immediately should fail
    let result = next(&mut m);
    assert!(matches!(result, Some(Err(Error::BodyNotConsumed))));
}

#[test]
fn test_boundary_like_string_in_body() {
    const BOUNDARY: &str = "boundary";
    const BODY: &[u8] = b"\
--boundary\r\n\
Content-Disposition: form-data; name=\"field1\"\r\n\
\r\n\
value1 contains --boundary text\r\n\
--boundary--\r\n";

    let stream = create_stream_from_chunks(BODY, 20);
    let mut m = MultipartStream::new(stream, BOUNDARY.as_bytes());

    let part = next(&mut m).unwrap().unwrap();
    let body = concat_body(part.body()).unwrap();
    assert_eq!(&body, b"value1 contains --boundary text");

    assert!(next(&mut m).is_none());
}

#[test]
fn test_malformed_headers() {
    const BOUNDARY: &str = "boundary";
    // "Invalid Header" contains a space, which is illegal for a header name.
    const BODY: &[u8] = b"\
--boundary\r\n\
Invalid Header: value\r\n\
\r\n\
body\r\n\
--boundary--\r\n";

    let stream = create_stream_from_chunks(BODY, BODY.len());
    let mut m = MultipartStream::new(stream, BOUNDARY.as_bytes());

    let result = next(&mut m).unwrap();
    assert!(matches!(result, Err(Error::ParseError(_))));
    if let Err(Error::ParseError(ParseError::Other(e))) = result {
        assert_eq!(e, httparse::Error::HeaderName);
    } else {
        panic!("Expected a ParseError::Other with InvalidHeaderName");
    }
}
#[test]
fn test_streaming_body() {
    const BOUNDARY: &str = "boundary";
    const PART1_BODY: &[u8] = b"This is the first part's body, which is quite long to demonstrate streaming.";
    const PART2_BODY: &[u8] = b"This is the second part, which is also streamed.";
    let body_content = format!(
        "--{boundary}\r\nContent-Disposition: form-data; \
         name=\"field1\"\r\n\r\n{part1_body}\r\n--{boundary}\r\nContent-Disposition: form-data; \
         name=\"field2\"\r\n\r\n{part2_body}\r\n--{boundary}--\r\n",
        boundary = BOUNDARY,
        part1_body = std::str::from_utf8(PART1_BODY).unwrap(),
        part2_body = std::str::from_utf8(PART2_BODY).unwrap(),
    );
    let body_bytes = body_content.as_bytes();
    let chunk_size = 10;
    // Use a very small chunk size to ensure the body is processed in a streaming manner
    let stream = create_stream_from_chunks(body_bytes, chunk_size);
    let mut multipart_stream = MultipartStream::new(stream, BOUNDARY.as_bytes());

    // --- Process the first part ---
    let part1 = next(&mut multipart_stream).unwrap().unwrap();
    assert_eq!(part1.headers().get("content-disposition").unwrap(), "form-data; name=\"field1\"");

    // Manually read data from the body stream chunk by chunk
    let mut body_stream1 = part1.body();
    let mut collected_body1 = Vec::new();
    let mut i = 0;
    while let Some(chunk_result) = try_next(&mut body_stream1).unwrap() {
        i += 1;
        // Assert that we indeed received non-empty chunks
        assert!(!chunk_result.is_empty());
        collected_body1.extend_from_slice(&chunk_result);
    }
    drop(body_stream1);
    assert_eq!(i, PART1_BODY.len().div_ceil(chunk_size));
    // Verify that the complete received body content is correct
    assert_eq!(collected_body1, PART1_BODY);
    i = 0;
    // --- Process the second part ---
    let part2 = next(&mut multipart_stream).unwrap().unwrap();
    assert_eq!(part2.headers().get("content-disposition").unwrap(), "form-data; name=\"field2\"");

    let mut body_stream2 = part2.body();
    let mut collected_body2 = Vec::new();
    while let Some(chunk_result) = try_next(&mut body_stream2).unwrap() {
        i += 1;
        assert!(!chunk_result.is_empty());
        collected_body2.extend_from_slice(&chunk_result);
    }
    drop(body_stream2);
    assert_eq!(collected_body2, PART2_BODY);
    assert_eq!(i, PART2_BODY.len().div_ceil(chunk_size));

    // --- Confirm the stream has ended ---
    assert!(next(&mut multipart_stream).is_none());
}

// ========== Boundary Value Tests ==========

#[test]
fn test_boundary_max_length_70_bytes() {
    // RFC 2046: boundary must not exceed 70 characters
    let boundary = "a".repeat(70);
    let body = format!(
        "--{}\r\nContent-Disposition: form-data; name=\"field1\"\r\n\r\nvalue1\r\n--{}--\r\n",
        boundary, boundary
    );

    let stream = create_stream_from_chunks(body.as_bytes(), 20);
    let mut m = MultipartStream::new(stream, boundary.as_bytes());

    let part = next(&mut m).unwrap().unwrap();
    assert_eq!(part.headers().get("content-disposition").unwrap(), "form-data; name=\"field1\"");
    assert_eq!(&concat_body(part.body()).unwrap(), b"value1");
    assert!(next(&mut m).is_none());
}

#[test]
fn test_boundary_min_length_1_byte() {
    // Minimum practical boundary length
    let boundary = "a";
    let body = format!(
        "--{}\r\nContent-Disposition: form-data; name=\"field1\"\r\n\r\nvalue1\r\n--{}--\r\n",
        boundary, boundary
    );

    let stream = create_stream_from_chunks(body.as_bytes(), 5);
    let mut m = MultipartStream::new(stream, boundary.as_bytes());

    let part = next(&mut m).unwrap().unwrap();
    assert_eq!(&concat_body(part.body()).unwrap(), b"value1");
    assert!(next(&mut m).is_none());
}

#[test]
fn test_boundary_with_special_chars() {
    // Test boundary with allowed special characters
    let boundary = "this_-boundary_123_ABC";
    let body = format!(
        "--{}\r\nContent-Disposition: form-data; name=\"field1\"\r\n\r\nvalue1\r\n--{}--\r\n",
        boundary, boundary
    );

    let stream = create_stream_from_chunks(body.as_bytes(), 20);
    let mut m = MultipartStream::new(stream, boundary.as_bytes());

    let part = next(&mut m).unwrap().unwrap();
    assert_eq!(&concat_body(part.body()).unwrap(), b"value1");
    assert!(next(&mut m).is_none());
}

#[test]
fn test_very_long_header_value() {
    // Test with very long header value (common in real-world scenarios)
    let boundary = "boundary";
    let long_value = "a".repeat(8192); // 8KB header value
    let body = format!(
        "--{}\r\nContent-Disposition: form-data; name=\"field1\"\r\nX-Long-Header: {}\r\n\r\nvalue1\r\n--{}--\r\n",
        boundary, long_value, boundary
    );

    let stream = create_stream_from_chunks(body.as_bytes(), 100);
    let mut m = MultipartStream::new(stream, boundary.as_bytes());

    let part = next(&mut m).unwrap().unwrap();
    assert_eq!(part.headers().get("x-long-header").unwrap().len(), 8192);
    assert_eq!(&concat_body(part.body()).unwrap(), b"value1");
    assert!(next(&mut m).is_none());
}

#[test]
fn test_many_small_parts() {
    // Test with many small parts (stress test the parser)
    let boundary = "boundary";
    let num_parts = 100;
    let mut body = String::new();

    for i in 0..num_parts {
        body.push_str(&format!(
            "--{}\r\nContent-Disposition: form-data; name=\"field{}\"\r\n\r\nvalue{}\r\n",
            boundary, i, i
        ));
    }
    body.push_str(&format!("--{}--\r\n", boundary));

    let stream = create_stream_from_chunks(body.as_bytes(), 50);
    let mut m = MultipartStream::new(stream, boundary.as_bytes());

    for i in 0..num_parts {
        let part = next(&mut m).unwrap().unwrap();
        let expected_name = format!("form-data; name=\"field{}\"", i);
        assert_eq!(part.headers().get("content-disposition").unwrap().to_str().unwrap(), expected_name);
        let expected_value = format!("value{}", i);
        assert_eq!(&concat_body(part.body()).unwrap(), expected_value.as_bytes());
    }
    assert!(next(&mut m).is_none());
}

#[test]
fn test_single_very_large_body() {
    // Test with a single very large body (memory efficiency test)
    let boundary = "boundary";
    let large_body = "x".repeat(1_000_000); // 1MB body
    let body = format!(
        "--{}\r\nContent-Disposition: form-data; name=\"file\"\r\n\r\n{}\r\n--{}--\r\n",
        boundary, large_body, boundary
    );

    // Use small chunks to ensure streaming
    let stream = create_stream_from_chunks(body.as_bytes(), 8192);
    let mut m = MultipartStream::new(stream, boundary.as_bytes());

    let part = next(&mut m).unwrap().unwrap();
    let received_body = concat_body(part.body()).unwrap();
    assert_eq!(received_body.len(), 1_000_000);
    assert_eq!(received_body, large_body.as_bytes());
    assert!(next(&mut m).is_none());
}

#[test]
fn test_empty_part_names() {
    // Test edge case: empty field name
    let boundary = "boundary";
    let body = format!(
        "--{}\r\nContent-Disposition: form-data; name=\"\"\r\n\r\nvalue1\r\n--{}--\r\n",
        boundary, boundary
    );

    let stream = create_stream_from_chunks(body.as_bytes(), 20);
    let mut m = MultipartStream::new(stream, boundary.as_bytes());

    let part = next(&mut m).unwrap().unwrap();
    assert_eq!(part.headers().get("content-disposition").unwrap(), "form-data; name=\"\"");
    assert_eq!(&concat_body(part.body()).unwrap(), b"value1");
    assert!(next(&mut m).is_none());
}

#[test]
fn test_part_with_no_headers() {
    // Test edge case: part with minimal headers
    let boundary = "boundary";
    let body = format!(
        "--{}\r\nContent-Disposition: form-data\r\n\r\nbody value\r\n--{}--\r\n",
        boundary, boundary
    );

    let stream = create_stream_from_chunks(body.as_bytes(), 20);
    let mut m = MultipartStream::new(stream, boundary.as_bytes());

    let part = next(&mut m).unwrap().unwrap();
    assert!(part.headers().get("content-disposition").is_some());
    assert_eq!(&concat_body(part.body()).unwrap(), b"body value");
    assert!(next(&mut m).is_none());
}

// ========== Performance and Stress Tests ==========

#[test]
fn test_chunk_size_variations() {
    // Test all chunk sizes from 1 to 512 bytes
    let boundary = "boundary";
    let body = b"\
        --boundary\r\n\
        Content-Disposition: form-data; name=\"field1\"\r\n\
        \r\n\
        value1\r\n\
        --boundary--\r\n";

    for chunk_size in [1, 2, 3, 4, 5, 7, 8, 15, 16, 31, 32, 63, 64, 127, 128, 255, 256, 511, 512] {
        let stream = create_stream_from_chunks(body, chunk_size);
        let mut m = MultipartStream::new(stream, boundary.as_bytes());

        let part = next(&mut m).unwrap().unwrap();
        assert_eq!(&concat_body(part.body()).unwrap(), b"value1");
        assert!(next(&mut m).is_none());
    }
}

#[test]
fn test_memory_efficiency_large_file() {
    // This test verifies that we don't buffer the entire input in memory
    // The parser should only keep a small window in memory regardless of input size
    let boundary = "boundary";
    let large_body = "x".repeat(10_000_000); // 10MB body
    let body = format!(
        "--{}\r\nContent-Disposition: form-data; name=\"file\"\r\n\r\n{}\r\n--{}--\r\n",
        boundary, large_body, boundary
    );

    // Use very small chunks to maximize stress on buffering logic
    let stream = create_stream_from_chunks(body.as_bytes(), 100);
    let mut m = MultipartStream::new(stream, boundary.as_bytes());

    let part = next(&mut m).unwrap().unwrap();

    // Stream the body chunk by chunk and count chunks
    let mut body_stream = part.body();
    let mut chunk_count = 0;
    let mut total_bytes = 0;

    while let Some(chunk) = try_next(&mut body_stream).unwrap() {
        chunk_count += 1;
        total_bytes += chunk.len();
        // Each chunk should be relatively small
        assert!(chunk.len() <= 10000, "Chunk too large: {}", chunk.len());
    }

    drop(body_stream); // Explicitly drop to release borrow

    assert_eq!(total_bytes, 10_000_000);
    assert!(chunk_count > 100, "Should have received multiple chunks, got {}", chunk_count);
    assert!(next(&mut m).is_none());
}

/// Ten parsers at work at the same time, each yielding to the others.
#[test]
fn test_concurrent_streams() {
    let boundary = "boundary";

    async fn parse_stream(boundary: &str, idx: usize) {
        let body = format!(
            "--{}\r\nContent-Disposition: form-data; name=\"field{}\"\r\n\r\nvalue{}\r\n--{}--\r\n",
            boundary, idx, idx, boundary
        );

        let stream = create_stream_from_chunks(body.as_bytes(), 10);
        let mut m = MultipartStream::new(stream, boundary.as_bytes());

        let part = next(&mut m).unwrap().unwrap();
        tokio::task::yield_now().await;
        let expected = format!("value{}", idx);
        assert_eq!(&concat_body(part.body()).unwrap(), expected.as_bytes());
        tokio::task::yield_now().await;
        assert!(next(&mut m).is_none());
    }

    let rt = Builder::new_current_thread().build().unwrap();
    rt.block_on(async {
        // Run 10 concurrent streams
        let handles: Vec<_> = (0..10).map(|i| tokio::spawn(parse_stream(boundary, i))).collect();

        for handle in handles {
            handle.await.unwrap();
        }
    });
}

// ========== Protocol Compatibility Tests ==========

#[test]
fn test_file_upload_with_filename() {
    // Test real-world file upload scenario with filename
    let boundary = "----WebKitFormBoundary7MA4YWxkTrZu0gW";
    let body = format!(
        "--{}\r\n\
         Content-Disposition: form-data; name=\"file\"; filename=\"test.txt\"\r\n\
         Content-Type: text/plain\r\n\
         \r\n\
         This is file content\r\n\
         --{}--\r\n",
        boundary, boundary
    );

    let stream = create_stream_from_chunks(body.as_bytes(), 50);
    let mut m = MultipartStream::new(stream, boundary.as_bytes());

    let part = next(&mut m).unwrap().unwrap();
    let content_disp = part.headers().get("content-disposition").unwrap().to_str().unwrap();
    assert!(content_disp.contains("filename=\"test.txt\""));
    assert_eq!(part.headers().get("content-type").unwrap(), "text/plain");
    assert_eq!(&concat_body(part.body()).unwrap(), b"This is file content");
    assert!(next(&mut m).is_none());
}

#[test]
fn test_unicode_filename_rfc2231() {
    // Test RFC 2231 encoded filename (UTF-8)
    let boundary = "boundary";
    let body = "--boundary\r\n\
         Content-Disposition: form-data; name=\"file\"; filename*=UTF-8''%E4%B8%AD%E6%96%87.txt\r\n\
         Content-Type: text/plain\r\n\
         \r\n\
         content\r\n\
         --boundary--\r\n";

    let stream = create_stream_from_chunks(body.as_bytes(), 30);
    let mut m = MultipartStream::new(stream, boundary.as_bytes());

    let part = next(&mut m).unwrap().unwrap();
    assert!(part.headers().get("content-disposition").is_some());
    assert_eq!(&concat_body(part.body()).unwrap(), b"content");
    assert!(next(&mut m).is_none());
}

#[test]
fn test_multiple_content_disposition_parameters() {
    // Test Content-Disposition with multiple parameters
    let boundary = "boundary";
    let body = "--boundary\r\n\
         Content-Disposition: form-data; name=\"field\"; filename=\"file.txt\"; size=\"1024\"\r\n\
         \r\n\
         value\r\n\
         --boundary--\r\n";

    let stream = create_stream_from_chunks(body.as_bytes(), 30);
    let mut m = MultipartStream::new(stream, boundary.as_bytes());

    let part = next(&mut m).unwrap().unwrap();
    let content_disp = part.headers().get("content-disposition").unwrap().to_str().unwrap();
    assert!(content_disp.contains("name=\"field\""));
    assert!(content_disp.contains("filename=\"file.txt\""));
    assert_eq!(&concat_body(part.body()).unwrap(), b"value");
    assert!(next(&mut m).is_none());
}

#[test]
fn test_various_content_types() {
    // Test various common content types
    let boundary = "boundary";

    for content_type in [
        "text/plain",
        "application/json",
        "application/octet-stream",
        "image/jpeg",
        "application/pdf",
    ] {
        let body = format!(
            "--{}\r\n\
             Content-Disposition: form-data; name=\"file\"\r\n\
             Content-Type: {}\r\n\
             \r\n\
             dummy content\r\n\
             --{}--\r\n",
            boundary, content_type, boundary
        );

        let stream = create_stream_from_chunks(body.as_bytes(), 50);
        let mut m = MultipartStream::new(stream, boundary.as_bytes());

        let part = next(&mut m).unwrap().unwrap();
        assert_eq!(part.headers().get("content-type").unwrap(), content_type);
        concat_body(part.body()).unwrap();
        assert!(next(&mut m).is_none());
    }
}

#[test]
fn test_content_transfer_encoding() {
    // Test Content-Transfer-Encoding header (though rarely used in multipart/form-data)
    let boundary = "boundary";
    let body = "--boundary\r\n\
         Content-Disposition: form-data; name=\"field\"\r\n\
         Content-Transfer-Encoding: binary\r\n\
         \r\n\
         value\r\n\
         --boundary--\r\n";

    let stream = create_stream_from_chunks(body.as_bytes(), 30);
    let mut m = MultipartStream::new(stream, boundary.as_bytes());

    let part = next(&mut m).unwrap().unwrap();
    assert_eq!(part.headers().get("content-transfer-encoding").unwrap(), "binary");
    assert_eq!(&concat_body(part.body()).unwrap(), b"value");
    assert!(next(&mut m).is_none());
}

#[test]
fn test_case_insensitive_headers() {
    // Test that header names are case-insensitive (HTTP standard)
    let boundary = "boundary";
    let body = "--boundary\r\n\
         content-disposition: form-data; name=\"field\"\r\n\
         content-type: text/plain\r\n\
         \r\n\
         value\r\n\
         --boundary--\r\n";

    let stream = create_stream_from_chunks(body.as_bytes(), 30);
    let mut m = MultipartStream::new(stream, boundary.as_bytes());

    let part = next(&mut m).unwrap().unwrap();
    // Headers should be accessible regardless of case
    assert!(part.headers().get("content-disposition").is_some());
    assert!(part.headers().get("Content-Disposition").is_some());
    assert!(part.headers().get("CONTENT-DISPOSITION").is_some());
    assert_eq!(&concat_body(part.body()).unwrap(), b"value");
    assert!(next(&mut m).is_none());
}

// ========== Error Recovery Tests ==========

#[test]
fn test_stream_error_during_body() {
    // Test stream error during body reading
    // We simulate this by using early termination which is similar
    let boundary = "boundary";
    let body = "--boundary\r\n\
         Content-Disposition: form-data; name=\"field\"\r\n\
         \r\n\
         partial content"; // Stream ends without proper boundary

    let stream = create_stream_from_chunks(body.as_bytes(), 20);
    let mut m = MultipartStream::new(stream, boundary.as_bytes());

    let part = next(&mut m).unwrap().unwrap();
    let result = concat_body(part.body());
    // Should get EarlyTerminate error
    assert!(matches!(result, Err(Error::EarlyTerminate)));
}

#[test]
fn test_incomplete_boundary_at_end() {
    // Test incomplete boundary at end of stream
    let boundary = "boundary";
    let body = "--boundary\r\n\
         Content-Disposition: form-data; name=\"field\"\r\n\
         \r\n\
         value\r\n\
         --bound"; // Incomplete boundary

    let stream = create_stream_from_chunks(body.as_bytes(), 20);
    let mut m = MultipartStream::new(stream, boundary.as_bytes());

    let part = next(&mut m).unwrap().unwrap();
    let result = concat_body(part.body());
    assert!(matches!(result, Err(Error::EarlyTerminate)));
}

#[test]
fn test_malformed_boundary_missing_crlf() {
    // Test boundary missing required CRLF
    let boundary = "boundary";
    let body = "--boundary\r\n\
         Content-Disposition: form-data; name=\"field\"\r\n\
         \r\n\
         value\r\n\
         --boundary--"; // Missing final \r\n

    let stream = create_stream_from_chunks(body.as_bytes(), 20);
    let mut m = MultipartStream::new(stream, boundary.as_bytes());

    let part = next(&mut m).unwrap().unwrap();
    assert_eq!(&concat_body(part.body()).unwrap(), b"value");
    assert!(next(&mut m).is_none()); // Should still complete successfully
}

#[test]
fn test_missing_final_boundary() {
    // Test completely missing final boundary
    let boundary = "boundary";
    let body = "--boundary\r\n\
         Content-Disposition: form-data; name=\"field\"\r\n\
         \r\n\
         value"; // No ending boundary at all

    let stream = create_stream_from_chunks(body.as_bytes(), 20);
    let mut m = MultipartStream::new(stream, boundary.as_bytes());

    let part = next(&mut m).unwrap().unwrap();
    let result = concat_body(part.body());
    assert!(matches!(result, Err(Error::EarlyTerminate)));
}

#[test]
fn test_boundary_injection_attack() {
    // Test boundary injection attack: boundary string appears in body
    let boundary = "abc";
    let body = "--abc\r\n\
         Content-Disposition: form-data; name=\"field\"\r\n\
         \r\n\
         value contains --abc text inside\r\n\
         --abc--\r\n";

    let stream = create_stream_from_chunks(body.as_bytes(), 10);
    let mut m = MultipartStream::new(stream, boundary.as_bytes());

    let part = next(&mut m).unwrap().unwrap();
    let received = concat_body(part.body()).unwrap();
    assert_eq!(&received, b"value contains --abc text inside");
    assert!(next(&mut m).is_none());
}

#[test]
fn test_header_injection_attempt() {
    // Test potential header injection (should be handled correctly)
    let boundary = "boundary";
    let body = "--boundary\r\n\
         Content-Disposition: form-data; name=\"field\"\r\n\
         X-Custom: value\r\n\
         \r\n\
         body\r\n\
         --boundary--\r\n";

    let stream = create_stream_from_chunks(body.as_bytes(), 30);
    let mut m = MultipartStream::new(stream, boundary.as_bytes());

    let part = next(&mut m).unwrap().unwrap();
    assert_eq!(part.headers().get("x-custom").unwrap(), "value");
    assert_eq!(&concat_body(part.body()).unwrap(), b"body");
    assert!(next(&mut m).is_none());
}

#[test]
fn test_extremely_long_line_in_headers() {
    // Test extremely long header line (buffer limits)
    let boundary = "boundary";
    let long_value = "a".repeat(100_000); // 100KB header value
    let body = format!(
        "--{}\r\nContent-Disposition: form-data; name=\"field\"\r\nX-Long: {}\r\n\r\nbody\r\n--{}--\r\n",
        boundary, long_value, boundary
    );

    let stream = create_stream_from_chunks(body.as_bytes(), 1000);
    let mut m = MultipartStream::new(stream, boundary.as_bytes());

    // Should either succeed or fail gracefully (not panic)
    match next(&mut m) {
        Some(Ok(part)) => {
            concat_body(part.body()).unwrap();
            assert!(next(&mut m).is_none());
        }
        Some(Err(Error::ParseError(_))) => {
            // Acceptable: header too long to parse
        }
        _ => panic!("Unexpected result"),
    }
}
