//! A verified library for a small quote-streaming protocol: stock quotes
//! and their `ticker|price|volume|timestamp_ms` wire lines, the
//! `STREAM <udp_addr> <tickers>` subscription command with its `OK` /
//! `ERR ...` answers, and tickers files listing one ticker per line.
//!
//! Every text operation is stated over character sequences in [`text`]
//! and proved there; the other modules state their contracts in its terms.

pub mod protocol;
pub mod quote;
pub mod text;
pub mod tickers;
