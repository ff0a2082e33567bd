# bend

Passes over functional programs and over the interaction nets that they compile
to, with proofs of what they do.

- `fun::check`: type inference for programs, in the manner of Hindley and Milner,
  with an `Any` type and kinds of numbers. `inference` says what the type of a
  term is, `typing` what it means for a term to have a type, and `soundness` and
  `program_typing` show that inferred types are types. `specialize_laws` says what
  an annotation makes of an inferred type, `stored_types` what is written back to
  the program.
- `fun::transform`: the extraction of combinators into definitions of their own.
- `hvm`: priorities for recursive redexes, and the search for cycles of
  functions that call each other without end.
- `name`, `name_map`, `name_graph`, `scc`: names, maps and sets of names, and
  strongly connected components.
- `indexed`: what is taken from the `indexmap` crate. Its contracts are believed,
  as are the order of strings and `String::push` in `name`. Everything else is
  proved.

Functions state their results over models of the data (`Ty`, `Tm`, `Bk`, `Nt`).
Properties that span functions are proof functions whose names begin with `law_`.

`app` connects the library to the nets of the `hvm` crate and writes messages
for people.
