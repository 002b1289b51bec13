# agni

A Redis-like in-memory cache server, with its library verified by Verus.

- `src/text.rs`: lossy UTF-8 decoding, Unicode whitespace, upper-casing, and
  the first word of a line.
- `src/protocol.rs`: commands read from frames, responses written as bytes,
  and the answer to one frame.
- `src/json.rs`: JSON string literals, standard base64 and UUID text, the
  pieces of an entry's JSON form.
- `src/store.rs`: entries and the store shared between connections.
- `src/bench.rs`: how a benchmark run shares its operations out.
- `app/`: the server, a one-shot client and a load generator, as subcommands.
