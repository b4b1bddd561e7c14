# assets

Registries of named entries, verified with Verus.

A registry gives each entry, named `namespace:segment/...`, a dense numeric
id. Ids follow name order, except where an entry was pinned to a slot. Each
entry can carry typed facet values (kept as columns, dense or sparse) and
declare properties; the states of an entry are the mixed-radix combinations
of its property values, numbered after those of the entries before it.

Layout of `src/`:

- `name.rs`: parsing and splitting of names; `order.rs`: their order.
- `id.rs`: typed numeric ids; `hash.rs`, `index_map.rs`: the hasher and the
  hash index of names.
- `registry/`: the builder (`builder.rs`), the build plan as spec functions
  and its lemmas (`plan.rs`), the executable build steps (`steps.rs`),
  columns (`column.rs`) and the built registry with its laws (`table.rs`).
- `registries.rs`: one registry per kind, under a stable id.
- `text.rs`: decimal numbers and the messages of errors.
- `erased.rs`: `TypeId` and type-erased boxes.

What Verus takes on trust: the functions and structs marked
`#[verifier::external_body]` in `erased.rs`, `text.rs` (the `Debug` text of a
character), `registry/builder.rs` and `registries.rs` (boxed trait objects).
