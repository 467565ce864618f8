# flatzinc_serde

A library for FlatZinc models: it reads the `.fzn` text format into a linked
model, writes a model back as `.fzn` text, and provides the decisions behind
the FlatZinc JSON format. The library in `src/` is verified with Verus.

Layout of `src/`:

- `lex.rs`, `text.rs`: the byte-level scanner (whitespace, comments, words,
  identifiers, integers, floats) and text extraction.
- `fzn/literals.rs`, `fzn/annotations.rs`, `fzn/items.rs`: the grammar of
  literals, annotations and items, each a spec function on bytes with an
  executable parser proved against it.
- `fzn.rs`: splitting a source into statements, the statement reader (item
  order, single solve item) and `FlatZinc::from_fzn`.
- `names.rs`: the name table that gives each identifier one slot.
- `intermediate.rs`: the unlinked model that the reader builds.
- `link.rs`: resolving names into shared variables and arrays, with the
  errors for unknown, nested and duplicate names.
- `model.rs`: the public model types and their mathematical views.
- `cloning.rs`: copies of model values that keep their views and share the
  declarations they refer to.
- `print.rs`: writing a model, or any part of one, as `.fzn` text.
- `json.rs`, `json_read.rs`: reading the JSON form of a model from a JSON
  value (objects as their entries in order): which keys each object takes,
  the shapes of literals and annotations, and the checks on types, domains
  and solve methods.
- `json_write.rs`: a model in the JSON form, as a `Json` value.
- `round_trip.rs`: the proof that reading back the JSON form written for a
  model gives that model again.
- `unknown_keys.rs`: an unknown key inside a declaration, a constraint or the
  solve item makes reading the whole model fail.
- `intern.rs`: the identifiers that a caller's interner takes, in order, and
  putting the interned identifiers back in place.
- `error.rs`: the errors and their messages.
- `helpers.rs`: `ArcKey`, a key that compares shared values by allocation.

`app/` holds what stays outside the verified library: reading from a
`BufRead`, calling an interner, rendering floating-point numbers, and turning
JSON text into a `Json` value and a `Json` value into text through serde.
