# heapstore

A slotted heap page for a database storage layer, verified with Verus.

A page is `PAGE_SIZE` (4096) bytes. Values are stored under slot ids that never
change while the value lives; deleting a value frees its slot id for the next
added value, which also reuses the deleted value's bytes when they are large enough.
A page serializes to exactly `PAGE_SIZE` bytes and reads back to the same page.

- `src/layout.rs`: the abstract model (`PageView`), what adding and deleting do to
  it, and the byte layout with its encode/decode lemmas.
- `src/page.rs`: `Page`, `Header`, `Metadata` and `PageIter`, each operation proved
  against the model.
- `src/laws.rs`: properties that span operations (a value reads back from its slot,
  other slots are untouched, deleted ids are reused, the header stays within eight
  bytes plus six per slot, iteration order).
- `src/history.rs`: pages built from an empty page by any sequence of adds and
  deletes: what each slot holds after the whole history, the page id, packing into
  `PAGE_SIZE` bytes, and free space when only adds were made.
