# ekv: range reads

The range-read cursor of an embedded key-value store, verified with Verus.

The store keeps its entries in a fixed number of files. Each file holds records in ascending key
order, a newer file hides what an older one says of the same key, and a record may mark its key as
deleted. A cursor merges the files and returns the entries between two bounds in lexicographically
ascending order.

The library does no input or output. `Cursor::new`, `Opening::step` and `Cursor::next` are steps of
state machines: each answers an event with a request or a result, and the caller carries the request
out. Every step has an exact contract.

- `src/keys.rs`, `src/bound.rs`: the order of keys and the bounds of a range.
- `src/search.rs`, `src/opening.rs`: finding, in every file, the place to start from.
- `src/cursor.rs`: the merge.
- `src/inline_vec.rs`: the `heapless` vectors in use, the only trusted part.
- `src/store.rs`: a model of the files and of the entries that they amount to.
- `src/reading.rs`, `src/range.rs`: what whole calls and whole range reads return over such files.
- `src/merge_proof.rs`: the invariant behind `src/reading.rs`.
- `app/`: the async plumbing around the library, and a fuzz target.
- `tests/`: range reads over files in memory, and single steps.
