# kpir_index

Keyword private information retrieval (KPIR^index) over a single-server,
LWE-based index PIR (SimplePIR, "Row-KOPIR"), written in Verus.

A server holds `n` key-value pairs. Setup hashes the keys (xxh3-64), sorts
them, and repetition-encodes `fingerprint ‖ value` records into an
`R × C` matrix of `Z_p` cells, each column padded with its neighbours' edge
entries. A client turns a key into an approximate rank, privately retrieves
the one column that covers it, and scans that column for the key's
fingerprint.

## Layout

- `src/` — the verified library.
  - `params.rs` — the matrix geometry (`MatrixShape`) and its formula.
  - `bits.rs` — bit packing of records into `pt`-bit cells.
  - `simplepir/` — the index-PIR backend: parameters, `Round_Δ`, the
    `acc += qᵀ·D` kernel, the seeded expansion of `A`, server, client and
    hint, with the proof that recovering an answer yields the queried
    column when the noise stays below `Δ/2`.
  - `scheme.rs` — the keyword layer: hashing, sorting, the repetition
    encoding, column decoding, the keyword server and client, the
    builders, and the proof that a lookup returns exactly what the server
    stores under the key.
- `app/` — unverified Rust for the floating-point parts: the Gaussian
  noise bound and the choice of plaintext width, the discrete-Gaussian
  error sampler, the PLA key-to-index map, and the keyword client that
  combines the map with the library.
- `tests/` — tests of the library.
