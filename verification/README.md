# f3dx_cache

A content-addressed cache of responses of language models, for tests, continuous
integration and replay. The library is written in Rust and verified with Verus.

- A request is a JSON document. Its fingerprint is the BLAKE3 hash, in
  hexadecimal, of its canonical text: no spaces, the keys of every object sorted
  by their UTF-16 code units, and every number that is an integer of 64 bits
  written as that integer. A floating-point number goes by its value, so numbers
  that are equal are written alike, `1` and `1.0` as well as
  `72057594037927936` and `72057594037927936.0`; integers keep all of their
  digits, and numbers that are no such integers the form in which `serde_json`
  writes them. Requests that differ in the order of keys, or in how an integer is
  written, share a fingerprint; requests that say something else do not, unless
  BLAKE3 collides.
- Under each fingerprint the cache keeps the request's text, the response and
  metadata with a count of hits. `get` counts the hit, `peek` does not, `stats`
  adds up.

## Layout

- `src/`: the verified library. Operations are sequences of steps: a step says
  what is to be done in the store, and `resume` takes the outcome. `src/store.rs`
  states what the operations amount to on the store's tables: what was put is
  found again, every hit is counted, nothing else changes.
- `app/`: the store in a redb file, which carries the steps out, and the Python
  module.
- `tests/`: tests of the library, some of them on a redb file.

`serde_json` reads and writes JSON text and `blake3` hashes it. What the proofs
take from these crates is stated at the functions that call them, in
`src/value.rs`, `src/number.rs`, `src/fingerprint.rs` and `src/bridge.rs`.
