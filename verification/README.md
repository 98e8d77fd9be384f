# wire_core

Wire is a communication fabric for AI-to-AI exchange. Ephemeral frames are
sealed end to end, delivered through a store-and-forward relay and dropped on
ack. Commitment events (membership, bilateral receipts, identity shares,
revocations) go on a per-channel, hash-linked, signed log; an exported receipt
can be checked offline by a party that was never on the channel.

## Layout

- `src/` — the verified library (Verus). Every wire format has a decoder
  proved to give back what the encoder wrote, on the values the encoder can
  be handed. A channel log grown by `append` from a new or a loaded log loads
  back to itself; a log that holds an archive tip, such as the hot log that
  truncation leaves, loads back with the same events, archive tip and tips,
  its forks found again from its events. The log, the relay queue, the
  receipt and invite rules, the metrics feed and the node's policy file are
  specified over mathematical models and proved against them. Calls into
  `ed25519-dalek`, `x25519-dalek`, `chacha20poly1305`, `sha2`, `lz4_flex` and
  `rand` go through small trusted wrappers in `crypto.rs` and `pack.rs`, whose
  doc comments say what is assumed of each.
- `tests/` — tests of the library on concrete values.
- `app/` — the `wire-node` and `wire-relay` programs: argument handling, files,
  sockets and threads around the library.
