# object_space

An object store in the manner of a tuple space: values of many types live
side by side, and are found again by type, by the value of a (possibly
nested) field, or by a range of field values. The store is written in Verus;
its contracts and laws are checked by the verifier.

## Layout

- `src/` — the verified library.
  - `json` — the documents the store holds, and their mathematical model.
  - `flat`, `flat_laws` — flattening a document to dotted keys and rebuilding
    its nesting; the proof that a document with dot-free, distinct keys and
    no empty nested object comes back unchanged.
  - `ordered`, `ordered_index`, `collections` — ordered keys (integers,
    floats by bit pattern, booleans, strings), ordered buckets of record
    numbers, and the `indexmap` sets and maps they rest on.
  - `indexer`, `index_laws` — the field index of the records of one type,
    and the proof that it lists exactly what the records hold.
  - `entry` — the records of one type, with lookups by value and by range.
  - `object_space`, `space_laws` — the records of every type, kept apart by
    `TypeId`, and the laws that relate writes to reads and takes.
  - `object_entry`, `type_box` — a plain per-type list of objects, and a
    marker for a type.
  - `doc_buckets`, `tree_entry`, `shallow_flat` — a tree entry that keeps
    the documents themselves in the leaves of their fields, with one-level
    flattening.
- `app/` — the typed, thread-safe layer: serde conversion, blocking reads and
  takes, agents.
- `tests/` — tests of the library.

## Design notes

- Ordered maps are sorted vectors whose keys are kept increasing (the
  well-formedness of `ordered_index` and `doc_buckets`), and maps by field
  name are vectors of pairs with distinct names. vstd's contracts for
  `BTreeMap` hold only for key types with a comparison specification, which
  vstd gives for integers; `String` has none, and floats keyed by bit pattern
  cannot be given one here. The vectors state the order for all four key
  kinds (integers, floats, booleans, strings).
- Types are told apart by `TypeId`. Whether one type is a subtype of another
  is not offered: it would rest on unstable `Unsize` and specialization.
- Reading a record rebuilds its nesting; a record whose keys pass through a
  value that is not an object cannot be rebuilt, and the space reports it as
  `InvalidRecord`.
