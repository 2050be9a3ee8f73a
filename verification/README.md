# simple_http

An HTTP/1.1 and HTTP/2 server. The protocol logic is a verified library
(`src/`); the program around it (`app/`) does the networking, the threads and
the file reading.

Library modules:

- `http`: header maps, requests, responses and status codes.
- `http1_1`: reading a request from its lines, writing a response as text.
- `http2::frames`: the frame codec (RFC 7540 sections 4 and 6).
- `http2::settings`: settings maps and their parameters.
- `http2::window`: stream flow-control windows and the DATA frames they let out.
- `http2::stream`: stream state machines, HPACK header blocks, request assembly.
- `http2::connection`: what each received frame does to a connection and what
  it calls for, and the frames of a response.
- `http2::server`: the connection preface.
- `site`: the demo site's routes and pages.
- `buf`, `text`: byte buffers and strings as the contracts see them.

The program serves `static/` on `localhost:7878` over HTTP/2 with prior
knowledge, or over HTTP/1.1 when started with `--http1`.
