# cuzi

A small reverse HTTP proxy. The library (`src/`) holds what the proxy decides,
verified with Verus; `app/` is the program around it (configuration file,
sockets, TLS, the relay loop).

- `src/text.rs`: Unicode whitespace, trimming, splitting on a character,
  joining, decimal formatting and parsing.
- `src/headers.rs`: the header store, an insertion-ordered map in which no
  name occurs twice.
- `src/http.rs`: reading a message (start line, header lines, body) as a state
  machine `Info -> Headers -> Body -> Info`.
- `src/forward.rs`: what is written to the other side (start line, header
  section with `host` pointed at the target), and the laws that a forwarded
  start line or header line reads back the same.
- `src/proxy.rs`, `src/config.rs`: choosing the route for a request URI and
  the address of its server.
