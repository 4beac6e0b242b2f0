# kvstore

A persistent key-value store with a line protocol over TCP, an append-only log
that survives restarts, optional expiry times (TTL), and a small web page for
browsing and editing the data. The library is written in Verus: every function
in `src/` carries a contract, and the properties the store promises are stated
and proved as proof functions (`law_*`).

## Layout

- `src/protocol/` – the commands, their names and the protocol's constants.
- `src/parser.rs` – one request line to a `ParsedCommand`, or the `ERROR` text.
- `src/store/` – the in-memory store: keys kept sorted, values with optional
  expiry times; `order.rs` is the key order, `slots.rs` the map model.
  The entries live in a vector sorted by key rather than a `HashMap`: vstd's
  specification of `HashMap` holds only for key types that obey its key model,
  which vstd establishes for integers and `bool` but not for `String`, so
  nothing about a `HashMap<String, _>` could be proved. The sorted vector
  keeps the same content (its invariant: strictly increasing keys, each one
  the store accepts) and gives `LIST` its order directly. The store also
  keeps the latest time it has worked at, so its time never runs backwards.
- `src/persistence.rs` – log records and their lines, and replay at start-up.
- `src/server.rs` – what the server answers for each command. A write is
  handed out (`Step::Write`) so that it reaches the log before the store
  changes; `complete` applies it once the log has answered.
- `src/web.rs`, `src/webpage.rs` – HTTP pieces (URL/form decoding, escaping,
  responses) and the page routes, built on the same server logic.
- `src/client.rs` – command-line dispatch and the interactive client's decisions.
- `src/text.rs`, `src/clock.rs` – text helpers and the millisecond clock.
- `app/main.rs` – the program: sockets, threads, the log file, standard input.
- `tests/` – tests of the library through its public interface.

## Usage

```
kvstore server [--port N] [--web-port N] [--data FILE] [--local]
kvstore client [--local]
kvstore --version | --help
```

Commands: `SET key value [ttl]`, `GET key`, `DEL key`, `LIST`, `STATUS`,
`PING`, `EXIT`. Command names ignore case; values may hold spaces but no line
breaks.
