# rustmetrics

A small metrics system: it takes in samples in the Prometheus text format, keeps
them in memory, answers queries over HTTP, draws a dashboard and saves snapshots.
The logic is a library verified with Verus; a thin program around it does the
input and output.

## Layout

| Path | What it holds |
| --- | --- |
| `src/text.rs`, `src/order.rs`, `src/sorted.rs` | characters, orders, sorted maps and sets |
| `src/natural.rs`, `src/numeral.rs` | big naturals, integer numerals |
| `src/binary64.rs`, `src/decimal.rs` | rounding to binary64 patterns, reading and printing them |
| `src/model.rs` | names, labels, series keys, timestamps, samples |
| `src/textfmt.rs`, `src/textfmt_laws.rs`, `src/roundtrip.rs` | text exposition: parser, encoder, their laws |
| `src/storage.rs`, `src/store_laws.rs` | the store: ingestion, retention, queries, their laws |
| `src/snapshot.rs`, `src/snapshot_laws.rs` | the binary snapshot format and its laws |
| `src/json.rs`, `src/http/` | JSON writer, requests, responses, server and client halves |
| `src/api.rs`, `src/api_laws.rs` | the routes and their handlers, and what holds across them |
| `src/scraper.rs`, `src/config.rs` | the outcome of a scrape, the command line |
| `app/` | the program: arguments, sockets, threads, files |
| `tests/` | tests on concrete values |

## Conventions

A sample's value is the bit pattern of a binary64 number, and samples compare as
the numbers do. Contracts speak of
views: a store is a map from series keys to sequences of points, a text is a
sequence of characters. Proof functions named `law_` state what holds across
functions; those named `lemma_` serve the proofs.

What is believed without proof stands next to its use: `String::push`,
`String::from_utf8` and `{:?}` of a string in `src/text.rs`, and the clock in
`src/model.rs`.
