# bridge_engine

Foundations for contract bridge software, written in Verus: every function of the library
states its behaviour in `requires` / `ensures` and is proved against it.

## Layout

- `src/` — the verified library.
  - cards and sets: `card`, `holding`, `hand`, `bits`, `seat`, `shape`, `shape_set`
  - the auction and the play: `call`, `auction`, `auction_bound`, `play`, `deal`, `dd_table`
  - text forms: `text`, `fmt`, `parse`, `error`, with the round-trip laws in `fmt_laws`
  - hand evaluation: `metrics`, `dist`, `half`
  - the hand-constraint language: `atom`, `constraint`, `dnf` (normal form, with the law that
    it means the same as the constraint), `known`, `sampler`, `sample`, and `enumerate` (the
    13-card hands between a fixed part and a pool, by which a sampler counts and a search
    finds hands)
  - the double-dummy solver interface: `dds`, `dds_convert`
  - the records of bidding decisions: `bidding`
- `tests/` — tests on concrete values.
- `app/` — `serde` and `std::error::Error` counterparts of the library's types, and the
  floating-point helpers that stay outside the verified code.
