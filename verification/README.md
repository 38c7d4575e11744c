# snapper

Verified logic for unlocking contested owned objects, in two designs:

- **Snapper** runs inside consensus. Authorities declare in their blocks where
  they stand on each object version; certificates, skips and unlocks are
  predicates on the block graph, and a committed anchor resolves what the fast
  path left open.
- **FastUnlock** (`cuttlefish`) runs beside consensus. A client collects signed
  votes to unlock an object version, and consensus sequences the certificate.

`src/` is the library. Every function there has a contract that Verus proves;
the few calls into outside crates (BCS, BLAKE2b, Ed25519) stand behind wrappers
whose contracts say what is believed of them. The laws that hold of the library
as a whole are in `state_laws.rs`, `tracker_laws.rs`, `anchor_laws.rs`,
`reject_laws.rs` and `cuttlefish_laws.rs`, and beside the definitions they speak
of.

`app/` holds what is outside the proofs: the lock around the vote tracker and
its metrics, the live workload runner, and the TCP transport of unlock votes.
`tests/` runs the library with the real crates.
