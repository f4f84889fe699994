# bridge-solver

A double-dummy solver for contract bridge, with par scoring and card-by-card
play analysis, written in Verus: the library's functions carry `requires` /
`ensures` contracts that Verus proves.

## Layout

- `src/` — the verified library.
  - `cards`, `hands`, `types`, `bits`, `text` — card sets as 64-bit words,
    the four hands, seats and suits, and the text helpers the parsers use.
  - `search`, `pattern`, `pattern_vec`, `bridge_solver` — the alpha-beta
    search with its cutoff cache and its bounds cache of rank patterns, the
    move ordering, and the `Solver` front end.
  - `par` — double-dummy tables, duplicate scoring and par contracts.
  - `analyse_play` — replaying a hand, pricing each card played, the
    alternatives at a decision, the perfect line from any point, and the
    position keys of a play record.
  - `lin_input`, `pbn`, `request`, `diag` — LIN calls and URLs, PBN tags,
    solve requests and the diagnostic input formats.
- `tests/` — tests of the library, run against the compiled crate.
- `app/` — the command-line program around the library: argument handling,
  file input, JSON requests and responses.

What the contracts state, and what they leave to the solver's own search,
is written in the doc comments above each function.
