# mini_redis

A small in-memory key-value server, verified with Verus.

The library (`src/`) holds everything the server and its clients compute:

- `avl.rs` — an AVL tree of `u32` values with cached depths and counts;
  `insert` and `delete` keep it balanced and ordered, and `verify` returns
  whether a tree is an AVL tree: exact cached fields, balanced heights, and
  every left subtree at most, every right subtree at least, its node.
- `hashtable.rs` — a chained hash map from strings to strings, keyed by the
  64-bit FNV-1a hash, that grows by moving a few entries per operation from
  the old table to a new one twice its size.
- `wire.rs` — little-endian integers, the serialized reply values, and the
  parsing of request bodies.
- `server.rs` — the commands (`get`, `set`, `del`, `keys`) against a map,
  and the framing of requests and replies.
- `client.rs` — building requests, and decoding replies into the lines a
  client shows.
- `conn.rs` — the state of one client connection and how each read,
  write and parsed frame moves it on, and what its socket is polled for.
- `stats.rs` — percentiles of sorted latencies, and their average.

`app/` is the program around it: the poll-based server loop, the
command-line client, and a load generator.
