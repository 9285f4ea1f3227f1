# redrumdb

An in-memory datastore that speaks RESP: strings with expiry, lists with
blocking pops, streams, and pub/sub, served by a single-threaded event loop.

The library under `src/` is written in Verus. Its functions carry contracts
over a mathematical model of the data, and the properties that span several
calls are stated and proved as public proof functions. The few functions
that only call the standard library or `slab` (the clock, UTF-8 decoding,
the connection table) are trusted, with contracts that say what those calls
do, or nothing where the result is the time or the allocator's choice.

## Layout

- `src/decimal.rs`, `src/reply.rs`: decimal numbers, and the RESP frames the
  server writes.
- `src/resp.rs`, `src/commands/parser.rs`: reading requests. The parser reads
  back every request frame the client side would write.
- `src/commands/`: the command table and the handlers (PING, ECHO, TYPE, SET,
  GET, RPUSH, LPUSH, LLEN, LRANGE, LPOP, BLPOP, SUBSCRIBE, UNSUBSCRIBE,
  PUBLISH, XADD), each with a spec of its reply and of its effect on the
  keyspace.
- `src/data_structures/`: the listpack (a packed byte buffer of strings and
  integers), the radix tree, and streams built from both.
- `src/server/`: the decisions of the event loop: which keys expire, which
  waiting clients are woken or time out, how a request is answered, and where
  published messages go. The connection table is a `slab::Slab`.
- `app/main.rs`: the event loop itself, on `mio`: sockets, the clock, and the
  loop that hands each event to the library.
- `tests/`: tests of the library on concrete values.
