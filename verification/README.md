# ternary_ledger

A verified ledger of compressed token sequences. Instead of an `n_window`-long run of raw
tokens, a caller sends one minted id (`>= n_vocab`); the ledger says which window the id stands
for, and travels between peers in a compact binary form.

- `src/` is the library. Every function but one is verified by Verus: contracts speak of
  `LedgerView` (`model.rs`) and of byte strings (`layout.rs`). `laws.rs` and `transport.rs`
  hold the laws.
- `tests/` runs the library on concrete values.
- `app/` is ordinary Rust around it: scores as `f32`, a displayable error, and an HTTP endpoint.

The central law is `transport::sent_is_received`: what one peer encodes, another decodes to the
same tokens, windows and ids. `transport::received_tokens_are_minted` says that whatever bytes
arrive, a ledger read from them holds minted tokens only, and `transport::truncation_is_refused`
that no proper prefix of an encoded ledger is ever accepted. `laws::cap_is_kept` and
`laws::low_viability_is_pruned` say what the cap and the viability floor do.
`endpoint::requests_keep_minted_form` says that no request brings in a token that a peer would
refuse.

What is taken on trust is one call of `String::from_utf8_lossy`, which reads the head of a
request as text (`endpoint.rs`).
