# hs_demo

A HotStuff BFT order-book node (hotstuff_rs 0.4): replicas agree on blocks
of user orders, and each replica keeps an aggregated order book in the
replicated application state, served over HTTP with a Swagger page.

The library under `src/` holds the node's logic with Verus contracts and
proofs:

- `kv` — the replica's in-memory ordered key-value store, write batches and
  snapshots; laws on how batches compose and which write wins.
- `orders` — orders, book keys, and the price order of a side.
- `book` — the aggregated book that committed blocks write: one level per
  price on each side, positions added up, best price first, and the list
  of symbols; laws that every order is counted and the book reads back.
- `app` — the pending orders and validator-set changes of a replica, the
  block payload's validator keys, the block data hash and its check.
- `api` — the status answer, the book a lone replica keeps directly in its
  store, and how the served book prefers committed state.
- `net` — the length-prefixed framing of peer messages.
- `node` — start-up rules: ports, log levels, key files, the genesis set,
  and the steps of connecting to a peer and learning its key.
- `ticker` — the minimal counting application.
- `sort`, `bytes` — stable sorting by keys and byte-string helpers.
- `codec` — the calls into base64, serde_json, borsh, sha2 (through
  hotstuff_rs) and ed25519-dalek, each with the contract it is trusted for.

`app/` is the program around it: command line, logging, TCP and HTTP I/O,
and the hotstuff_rs trait implementations, which call into the library.

Run with `cargo run -- --p2p-listen 127.0.0.1:9001 --http-listen 127.0.0.1:8081`
(and `--peers`, `--bootstrap-keys`, `--key-file` for a cluster); Swagger is
served at `/swagger`.
