# streaming_quotes

A quote-streaming protocol, written in Verus and verified.

- `src/text.rs` states the text operations the protocol uses over
  `Seq<char>`: Unicode whitespace trimming, splitting on a separator,
  joining, decimal numerals, and unsigned integer parsing as `from_str`
  does it. It also holds the executable versions and their proofs, and the
  lemmas the round-trip laws rest on.
- `src/quote.rs` covers stock quotes and their `ticker|price|volume|timestamp_ms`
  wire lines. The price stays a type parameter: the caller supplies its
  text when writing a quote and its parser when reading one.
- `src/protocol.rs` covers the `STREAM <udp_addr> <tickers>` subscription
  command, its `OK` / `ERR ...` answers, and the command line a client
  writes. The caller supplies the socket address parser.
- `src/tickers.rs` reads tickers files (one ticker per line) and holds
  `TickerSet`, the set of known tickers.
- `app/` is the server and client program: TCP/UDP sockets, threads, files,
  socket address and floating-point parsing and formatting.
- `tests/` holds the tests.
