# network_programming

Socket servers and a client, split into a verified library and the programs
around it.

- `src/` (verified with Verus)
  - `text.rs`: searching byte and character sequences, white-space trimming,
    decimal rendering, and the trusted call of `String::from_utf8_lossy`.
  - `http.rs`: splitting a raw request into request line, header fields and
    body; taking the path or the JSON payload out of it; routing; framing the
    responses with their `Content-Length`.
  - `request_laws.rs`: what parsing keeps and gives back: lossless cuts,
    single-line parts, round trips of built requests, appended bodies and
    posted JSON.
  - `encoding.rs`: UTF-8 facts the laws rest on (encoding distributes over
    concatenation, ASCII encodes as itself, cuts next to ASCII stay valid).
  - `ftp.rs`: the FTP session as a state machine (command in, replies out).
  - `transport.rs`: the transport type, the disconnect message, and the
    steps of sending a file in chunks.
- `app/`: `main` and all I/O: sockets (nix), files, the thread pool, JSON
  (serde). Run with `server` (default), `client`, `http` or `ftp`.
- `tests/`: tests of the library.
