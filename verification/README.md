# monero-scan

A scanner which finds the outputs a Monero wallet received, verified with Verus.

- `src/receiving.rs` says what a wallet receives from a transaction and from a block, and
  `src/scan.rs` holds the scanners, whose contracts are stated over it.
- `src/laws.rs` and `src/profiling.rs` prove what holds of scanning, and of what it's profiled as.
- `src/ed25519.rs`, `src/hash.rs`, `src/ecdh_cache.rs` and `src/microprof.rs` call the outside
  functions everything rests on: curve25519-dalek, sha3, zeroize, aHash, and the system's clock.
- `app/` keeps one profiler per process, and overwrites scanners, and the containers of outputs,
  once they're dropped.
