# handle_collections

Small collections with machine-checked contracts:

- `StaticBitSet` and `InlineBitSet`: sets of bit positions stored in an array of words
  (`u8` to `u128` or `usize`, through the `Word` trait), with membership updates,
  counting, forward and backward searches for set and clear positions, set algebra and
  an ascending walk. Their view is the set of positions they hold.
- `HandleMap`, `DenseHandleMap` and `SideHandleMap`: maps keyed by typed handles
  (`Handle`, with `Handle32<T>` as a ready-made handle type). Their view is the sequence
  of values (or of optional values, for the side map).
- `HandleRange`: a contiguous run of handles that can be consumed from either end.
- `PackedOption`: an `Option` stored in the space of a value type that has a reserved
  value (`ReservedValue`).
- `StaticArrayList`: a list that never holds more than `N` elements.

`src/bit_array.rs` holds the word-level logic shared by both bit sets, and
`src/laws.rs` the properties that relate several operations.
