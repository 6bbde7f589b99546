# arity

Fixed-arity array storage indexed by niche integers, the bitmaps behind it,
and path-compressed tries over it, verified with Verus.

## Layout

- `src/` — the verified library.
  - `niche`, `range`: the niche index types `U3`..`U7` (and `u8`), their
    conversions and ranges.
  - `count`, `word`, `bitmap`, `native`, `u256`: bitmaps over the indices,
    modelled as sequences of bits, with rank and select.
  - `arity`: the arities 8 to 256, each pairing an index type with a bitmap.
  - `fixed`, `packed`, `gapped`: the full-width, packed and gapped arrays,
    each modelled as one `Option` per index; `compact` and `logical` are the
    wire forms they are framed and checked from.
  - `children`, `node`, `path`, `key`, `store`: trie nodes, their children
    maps, paths, and the edge store that resolves an edge to its node.
  - `ops`, `iter`, `validate`, `hash`: lookup, ordered iteration from a start
    key, the structural check, and the Merkle hash walk, each stated over the
    trie's lookup model.
  - `repr`: the source text of a niche index type for a bit width.
  - `laws`: properties that relate several operations.
- `tests/` — tests that run the library.
- `app/` — the command-line generator for niche index types, and the serde
  forms of the arrays.
