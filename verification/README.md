# valence

Verified building blocks of the Valence co-processor, written in Verus.

- `src/merkle`: the sparse Merkle tree over a key-value backend: insertion,
  pruning, openings, non-membership and compound openings, with the laws that
  tie what `insert` writes to what the openings read back, through nested
  trees too (`merkle::laws`, `merkle::preserve`).
- `src/hash.rs`, `src/backend.rs`: the SHA-256 hasher of the SP1 runtime and
  the in-memory backend.
- `src/scheduler.rs`, `src/scaling.rs`, `src/cache.rs`, `src/prover.rs`: the
  round-robin prover clusters, the worker-pool scaling rule, the proving-key
  cache, and both sides of the prover protocol: the requests a client sends
  and the steps a worker takes.
- `src/http.rs`, `src/runtime.rs`, `src/host.rs`: the portable HTTP types, the
  runtime state of a controller and the checks of the host functions; a
  request is handed to the host's HTTP function as `HttpClient::host_request`
  builds it.
- `src/http_commands.rs`: the commands of the portable HTTP client controller
  (generic HTTP calls and Ethereum JSON-RPC examples), from their arguments to
  the request they send and the answer they give.
- `src/cli.rs`, `src/service.rs`, `src/ids.rs`, `src/groth16.rs`: settings and
  derived values of the command-line helper and of the service, including the
  workspace layout read from `cargo metadata` and the package manifest.
- `src/context.rs`, `src/historical.rs`: what the service makes of a
  request's headers before its endpoint runs, and the walk that collects the
  proofs of an interval of historical updates, oldest first (`BulkWalk`,
  driven one step at a time by the reader of the service's history store,
  which is not here).
- `app/`: the `cargo-valence` command-line program and the native I/O around
  the library, including the runner of the HTTP client's commands.
- `tests/`: tests of the library on concrete values.
