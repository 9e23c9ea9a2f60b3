# volatus

A configuration tree: named elements with values and string metadata,
arranged under a hidden root, with lookups by path, searches over
descendants and ancestors, and a loader that builds a tree from JSON text.

- `src/config/manager.rs` — the tree (`Manager`, `ElemHandle`, `Element`)
  and its operations, each with a contract over the model in `model.rs`.
- `src/config/model.rs` — the mathematical model of a tree, its invariant
  and the lemmas that the operations rely on.
- `src/config/search.rs` — reachability facts behind the breadth-first
  searches (`descendents`, `remove`).
- `src/config/lookup.rs` — element predicates (`ElemLookup`).
- `src/config/meta.rs` — per-element metadata (`MetaTable`).
- `src/config/text.rs` — decimal numerals (array item names, handle text).
- `src/config/json.rs` — the JSON loader; parsing itself is done by
  `serde_json` behind one trusted function.
- `src/config/show.rs` — the debug text of an element (`Element::debug_text`).
- `src/config/laws.rs` — properties relating several operations.
- `app/main.rs` — a small program that builds and prints a tree.

Floating-point element values are stored as their bit patterns.
