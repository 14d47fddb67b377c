# awpy

Structured datasets from decoded Counter-Strike demos: rounds, timeouts, kills, damage, bomb
actions, shots, blinds, grenades, fires, smokes, players, item transactions, player states,
round economy and chat. The library is written in Verus; every function in `src/` is proved
against its contract, but for the five readers of `src/wire.rs`, whose contracts state what
the `prost` crate does.

A demo reaches the library decoded, as plain values: frames of entities with their networked
fields, the schema that names the fields, the game's name tables and the events
(`src/demo.rs`, `src/names.rs`). `src/parser.rs` has one method per dataset, and each module
under it one dataset: the row type, what the rows are as spec functions, the functions that
build them, and the laws they obey (`law_*`).

Single-precision numbers are carried as bit patterns (`src/float.rs`), which the library
compares but does not add. Where a dataset needs a sum or a distance, the library says what is
to be reckoned and takes the result: `Parser::flash_candidates` and `Parser::blinds`.

Numbers that do not fit are kept out by the preconditions of the dataset methods. For each
of them there is a method that tests it: `has_countable_freezes`, `has_countable_rounds`,
`has_countable_hurts`, `has_all_sums`, `can_snapshot`, `can_query` and
`has_countable_economy`.

The one outside crate the proofs rest on is `prost`, which reads the fields of chat messages
(`src/wire.rs`).

`app/` holds what stands around the library: the developer commands, the serialized rows,
single-precision arithmetic, and decoding in parallel segments.
