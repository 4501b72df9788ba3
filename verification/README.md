# object_rainbow

Byte encodings for content-addressed objects, and the tries built on them, written in
Verus with every function of the library proved against its contract, apart from the few
marked calls into std and outside crates whose contracts are trusted.

## Layout

- `src/` — the library.
  - `traits`, `input`, `error`: the encoding traits (`ToOutput`, `ParseInline`,
    `Parse`, `Niched`), stated over the deep views of values, with the round-trip and
    canonicity lemmas each implementation proves.
  - `primitives`, `option`, `tuple`, `hash`, `niches`, `incr_byte_niche`,
    `decr_byte_niche`, `ln_option`, `extra_none`, `monostate`, `marker`: fixed-size
    encodings and the spare byte patterns ("niches") that nested `Option`s use.
  - `u63`, `length_prefixed`, `sequence`, `tuple_of_arrays`, `none_terminated`,
    `default_terminated`, `default_chain`, `vec_deque`, `text`: variable-size
    encodings.
  - `ordering`, `item_order`: comparison by the byte order of encodings.
  - `array_map`: a byte-keyed map encoded as a presence mask and its values.
  - `hamt`, `amt_set`: hash tries, one level per hash byte.
  - `amt`, `amt_ops`: a radix trie over the encodings of keys, with merge, swap and
    change-set operations.
  - `append_tree`: an append-only list held as a tree of 256-wide nodes.
  - `ascii`, `extras`, `fetch`, `encrypted`, `shared`: smaller pieces (`shared` holds
    the two calls on `Arc` that sharing a value between clones needs).
- `tests/` — tests run against the compiled library.
- `app/` — `Display` for hashes and serde support for the length-prefixed wrappers,
  which the library cannot carry itself.
