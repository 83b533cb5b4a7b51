# lithos-core (schema system)

The schema system of Lithos, a tool that indexes Obsidian vaults: schema and
property-bank definitions are discovered, ref-expanded against the property
bank, dereferenced with their overrides applied (string options and
pattern, date format, file directory and class; a number's bounds are
floating-point values and stay outside the model), arranged into an inheritance tree, merged,
hashed, diffed against their cached versions and described for storage.

The functions under `src/` carry `requires`/`ensures` contracts that Verus
proves (a few trivial trait impls and spec helpers aside). The contracts are stated over mathematical models (`Seq`,
`Map`, `Set`, spec functions and views); the public proof functions state
the laws that relate several operations (read-after-write of the index,
round trips of the hexadecimal and stored forms, the descendant closure,
the preservation of the index's consistency).

Layout:

- `src/` — the verified library, one module per concern (`identifier`,
  `property`, `bank`, `raw`, `expander`, `dereferencer`, `extender`,
  `inheritance`, `graph`, `merger`, `delta`, `hash`, `compression`,
  `index`, `stored`, `query`, `command`, `ingestor`, `discovery`, `loader`,
  `resolver`, `base_processor`, `builder`, `events`, ...). A load runs as a
  state machine (`loader::load_step`): the library decides every step,
  expands and resolves the schemas (`resolver`) and analyses changed files
  against their cached versions (`base_processor`); the caller performs the
  reads and writes it asks for. Calls into blake3, hex, regex, uuid, getrandom and
  zstd stand behind small trusted wrappers whose contracts name what the
  outside function returns.
- `tests/` — the test suite, run against the compiled library.
- `app/` — the unverified edge: event handlers that emit records through
  `tracing`, the archived storage records read and written with `rkyv`,
  the cached compiled regular expressions of the string formats, and the
  loops that perform the reads and writes of a build, a load and the
  processing of one schema file, against traits that a storage layer
  implements.
