# Scone

The chain of a name system: domains and top-level domains are registered,
renewed and transferred by signed transactions, blocks carry the transactions,
and committees drawn from the registered owners finalize checkpoints of the
chain.

The crate is written in Verus. Every item under `src/` is verified: contracts
are stated over mathematical models of the data (`ChainModel`, `StateModel`,
`NodeModel`, `NetModel`, ...), and the laws that span several operations are
public proof functions whose names begin with `law_`.

## Layout

- `txid`, `merkle`, `block_hash`, `genesis`, `builder`, `producer`,
  `validate`: transactions, blocks and their identities.
- `state`, `state_backend`, `expiry`, `entry`, `smt`, `snapshot_verify`: who
  owns which name, when it expires, and the sparse Merkle tree that commits
  to all of it. Models and laws: `state_model`, `state_laws`, `smt_model`.
- `chain`, `fork_choice`, `finality`, `archive`: blocks that are pushed,
  replaced and finalized. Models and laws: `chain_model`, `fork_model`,
  `chain_laws`.
- `signer`: the guard that keeps a key from voting twice in one epoch.
- `node`, `parking`, `rejections`, `transport`, `net`: a network of nodes
  with losses, delays, partitions and crashes, driven by events.
- `gui`, `page`, `relay`, `json`: the logic of a read-only explorer.
- `bytes`, `ids`, `idmap`, `text`, `digest`, `crypto`, `fold`, `types`,
  `error`, `consensus`: what the others are built from.

What the proofs rest on without proof is marked `external_body` or
`assume_specification`, with a comment that names the outside function and
what is claimed of it: BLAKE3 (`digest`), Ed25519 (`crypto`), members of JSON
values (`json`) and two string functions (`text`).

`app/` is ordinary Rust: the page, the relay connection, the database, the
signer's file and the loop around a simulated network. Codecs, elections and
the keystore are handed to it through the traits of `app/services.rs`.
`tests/` holds the tests.
