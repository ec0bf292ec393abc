# yaml0

A YAML 1.2 best-effort scalar scanner, scalar resolver, merge-key resolver
and emitter, written in Verus: each function carries a contract over a
mathematical model of the text or value it works on, and Verus proves it.

## Layout

- `src/` — the verified library.
  - `parser/` — the character scanner (`Parser`): plain, double-quoted and
    single-quoted scalars (borrowed from the source when nothing needs
    decoding), escape decoding, line folding, literal and folded block
    scalars with chomping.
  - `patterns.rs` — which plain scalars read as null, booleans, integers and
    floats, and which strings must be quoted; `resolve_scalar`.
  - `value.rs`, `owned.rs` — the borrowed and owned value trees, their
    common model (`Node`), the total order on values, accessors and
    conversions; `order_laws.rs` proves the order total.
  - `merge.rs` — `<<` merge keys, with the laws they obey.
  - `tags.rs` — tags applied to the node they annotate: the coercions of
    `!!str`, `!!int`, `!!float` and `!!bool`, `!!null`, and any other tag
    kept on its node.
  - `emitter.rs` — block-style YAML output.
  - `roundtrip.rs`, `block_roundtrip.rs` — what the emitter writes, the
    scanner reads back.
  - `chomping.rs` — the three chomping indicators read one block alike.
  - `text.rs` — character-level helpers and the few trusted wrappers of
    `std` string functions; `utf8.rs` — byte offsets of character
    positions, for slicing the source.
- `tests/` — the test suite.
- `app/` — the serde integration and the floating-point edge: value types
  with `f64`, `Serialize`/`Deserialize`, `to_string`, `to_value`,
  `from_value`, and the doubles that `!!float` makes.

Doubles are modelled by their IEEE-754 bit patterns; their decimal text
(Rust's `Display`) and parsing are supplied by the caller.
