# sema

Semantic analysis of a Rust crate's source tree, for code generators that
need to query structs, enums, traits, impl blocks and free functions with
their relationships resolved.

Every file is parsed with `syn`; the `mod name;` declarations are followed
from the entry file to build the module tree (`name.rs` beside the declaring
file, else `name/mod.rs`; files no declaration reaches stay out); items get
ids derived from their module path and name; impl blocks are linked to the
type and trait their paths name (a path may start with `crate`; `self`,
`super` and names brought in by `use` are not followed). Resolved items
carry crate-qualified module paths (`crate::motor`, empty at the root), and
`in_module` matches whole path segments, written with or without
`crate::`. A `Workspace` then answers chainable queries (`named`, `public`,
`in_module`, `with_attribute`, `named_matching`, ...), which read names,
visibility and attributes off each item's syntax tree, and
cross-references (`impls`, `methods`, `trait_impls`, `impl_blocks`, lookups
by id).

## Layout

- `src/` — the library, verified with Verus.
  - `resolve/` — module tree, item table and path resolution:
    `parse.rs` (reading files, linking modules), `tree.rs` (module paths),
    `item.rs` (the item table), `db.rs` (impl resolution, path lookup),
    `ids.rs` (item and module ids), `calls.rs` (call collection).
  - `resolve_bridge.rs` — from the resolved database to a `Workspace`.
  - `workspaces.rs`, `query.rs`, `types.rs` — the queryable workspace.
  - `syntax.rs` — the calls into `syn` and `quote`. Each one that reads a
    syntax tree states its result through a named property of the node or
    of the source text (its identifier, visibility, attributes, kind, paths,
    members, printed text), which the rest of the library's contracts use.
  - `text.rs` — string operations stated over character sequences.
  - `bridge.rs` — naming helpers for module chains given as plain names.
- `tests/` — tests on concrete sources.
- `app/` — the file-system side (finding and reading sources, reporting the
  files left out of the module tree, printing rerun directives), the
  `syn::visit` driver for call collection, and a smoke run of the resolver.
