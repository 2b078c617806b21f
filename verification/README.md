# pgsteward

A connection pooler for PostgreSQL that keeps every instance within its total
budget, as a Verus library: the decisions of a node are executable Rust whose
behaviour is stated in contracts and proved.

- `src/` is the verified library. Total budgets and allocation stand in
  `budget`, `policy`, `allocation`, `spread`, `grant` and `coordinator`; what
  holds over time stands in `safety` and `history`. A proxy's side is in `pool`,
  `convergence`, `admission`, `session`, `relay` and `cancel`; the side toward
  servers in `server`, `exchange`, `backend`, `frontend`, `inspect` and `tls`;
  passwords in `scram`, `auth` and `crypto`. `console`, `metrics`, `config` and `serve` hold
  what operators see and write. `order`, `ordmap`, `sorting`, `sums`, `text` and
  `time` are what the rest is built of.
- `tests/` runs the library, with the outside crates it calls.
- `app/` is the node's program: sockets, tasks, files and the encodings of the
  wire, around the library.

Functions marked `#[verifier::external_body]` call an outside crate; the comment
above each says what is taken on trust. A spec function without a body names
what such a call returns.
