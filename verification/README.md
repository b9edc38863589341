# multipart_async_stream

A streaming parser for multipart messages, verified with Verus.

The parser yields the parts of a message while its bytes arrive, each with its
headers, and streams the bodies in pieces, in a buffer whose size does not depend
on the length of the message. The body of a part has to be read to its end before
the next part can be had.

- `src/` is the library. `parser.rs` is the state machine, `stream.rs` puts it on
  a queue of chunks. `model.rs` states what it does, `document.rs` what a message
  says; `laws.rs` and `conduct.rs` prove that what is read is what the message
  says, however its bytes are cut into chunks, and `memory.rs` that no more is held
  than the boundary, a chunk and a header block make up.
- `app/` puts the state machine on asynchronous streams.
- `tests/` runs the library.

A part is opened by two hyphens, the boundary and the end of the line, wherever on
a line they stand; a body is ended by the same at the start of a line, or with two
hyphens in place of the end of the line. Where something else follows the boundary,
blanks too, it is content: of the preamble, or of the body that it stands in.
