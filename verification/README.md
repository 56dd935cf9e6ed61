# pgp_challenger

Fraud detection for the Pretty Good Payments rollup, written in Verus. The library decides
whether a block of the rollup is fraudulent, gathers the evidence, and builds the challenge
that is submitted on chain. Its functions carry contracts that Verus proves.

## Layout

- `src/types.rs`, `src/text.rs`: words, addresses, 256-bit numbers, and their decimals.
- `src/blob.rs`: a block as it is read from its blobs.
- `src/kzg.rs`: evaluation points of a blob's fields, commitments and proofs.
- `src/merkle.rs`: the incremental Merkle tree.
- `src/groth16.rs`: keys, proofs and public inputs of the two circuits.
- `src/validators/`: the checks of deposits, nullifiers, transactions and tree updates, and the
  trees of block roots that the last are made against.
- `src/challenge.rs`, `src/challenge/`: where a block keeps its parts, the challenges, and the
  laws that connect what a check finds with the challenge that proves it.
- `src/runner.rs`, `src/runner/`: the course of a block through the checks, rollbacks, and the
  steps in which a challenge is put together and tried again.
- `src/events.rs`, `src/event_loop.rs`: which blocks are polled, the order of events, and the
  steps of a batch.
- `src/beacon.rs`, `src/blob_cache.rs`, `src/fallback.rs`: blobs as nodes hand them out, the
  cache, and the order in which two places are asked.
- `src/snarkjs.rs`, `src/circom_prover.rs`: inputs and outputs of the provers.
- `src/state.rs`: rows of the database.
- `src/settings.rs`: what has to be configured.
- `app/`: the program around the library: the chain, the database, HTTP and the provers.

## What is trusted

Functions marked `#[verifier::external_body]` call code that is not verified: big-number
arithmetic and its decimal text, KZG, Poseidon, field elements, curve points and pairings,
SHA-256, hexadecimal text, the LRU cache, and three text functions of the standard library.
The comment above each says what its contract claims of the function it calls.
