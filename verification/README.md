# reasons_core

A justification-based truth maintenance library: belief networks of IN/OUT
nodes and the justifications that support them, with the queries, reports and
updates a reasons server answers, proved correct with Verus.

## Layout

- `src/` — the verified library.
  - `network` — nodes, justifications, the network, antecedent and dependent queries.
  - `neighbors` — breadth-first neighbour expansion of search matches.
  - `search`, `show`, `explain`, `tree`, `listing` — the reports.
  - `update` — adding beliefs, challenges, defenses, contradictions, and their reports.
  - `tools` — each update tool whole: deciding, applying, re-deriving and reporting.
  - `render` — JSON and minimal renderings of search results.
  - `tms` — re-deriving the beliefs downstream of a change: retracting, asserting,
    adding, applying a challenge or defense, and backtracking on a contradiction.
  - `config`, `domains` — the domains configuration and the domains a server serves
    (`ReasonsServer`).
  - `desktop` — registering the server in a client's JSON configuration, menu texts.
  - `text`, `params` — string helpers and request defaults.
- `tests/` — tests run against the compiled library.
- `app/` — file and process I/O around the library: reading and writing the
  domains configuration, client configuration files and command-line clients.

Every public function states its result exactly over spec functions; the
laws that relate several functions are public proof functions
(`lemma_antecedents_dependents`, `lemma_expansion_reaches_exactly`,
`lemma_expansion_grows`, `lemma_sort_by_impact`, `lemma_challenge_defeats`,
`lemma_defense_restores`, `lemma_update_keeps_consistency`,
`lemma_last_of_each`, `lemma_cli_database_served`, `lemma_nogood_ids_distinct`,
`lemma_search_grows`, `lemma_consistent_unique`, `lemma_assert_undoes_retract`).
