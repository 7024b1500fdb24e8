# kernelflow

A workflow engine whose decision-making core is verified with Verus.

Workflows are DAGs of nodes drawn from a fixed library of primitives
(constant, SHA-256, HTTP fetch, median, threshold). A scheduler runs the nodes
whose inputs are ready in parallel, each wrapped in retry with capped
exponential backoff, a circuit breaker and a rate limiter, and ends with a
deterministic hash of all outputs that an Ed25519 key signs.

## Layout

- `src/` — the verified library.
  - `dag.rs`: DAG building with cycle and endpoint checks, topological order
    (Kahn), and the laws relating the two.
  - `scheduler.rs`: the run state machine: which nodes are ready, what input
    each receives, how a completion unlocks children, whether every node was
    reached.
  - `resilience.rs`: admission, circuit breaker and retry decisions.
  - `operator.rs`, `capability.rs`: operator pool with capacity reservation.
  - `nodes.rs`: node descriptors, type signatures checked at composition
    time, HTTP egress allowlist.
  - `hash.rs`, `attest.rs`: hashing of canonical JSON (node outputs and the
    attestation hash of a whole run) and signed attestations.
  - `outside.rs`: the trusted wrappers around `serde_json`, `uuid`, `sha2`,
    `hex`, `ed25519-dalek`, `rand`, `chrono` and std's hasher. What
    `serde_json` computes (parsing, canonical serialization, string quoting)
    is named there, not proved.
  - `nodemap.rs`, `count.rs`, `text.rs`: sorted string-keyed map, counting
    and string lemmas used by the proofs.
- `tests/` — tests of the library.
- `app/` — the node binary: async execution (actors, timeouts, sleeping,
  rate limiting), HTTP and GraphQL, language-model calls, floating-point
  nodes, and serde forms of the library's types.

## Not included

The RocksDB store (`Store`, `ShardedStore`), the WebAssembly engine
(`WasmEngine`, `WasmNode`; the arguments it hands to a module and the fuel
it counts are in `sandbox.rs`), the libp2p gossip node (`P2pNode`) and the Anchor
accounts struct (`SubmitAttestation`) are not part of this crate: their
crates cannot be built here (RocksDB needs libclang) or do not fit its
dependency budget (wasmtime, libp2p, anchor-lang). The shard routing of the
store and the on-chain record update are in the library (`storage.rs`,
`onchain.rs`).
