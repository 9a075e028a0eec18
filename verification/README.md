# octocode (verified core)

The logic of a semantic code search tool, proved
against its contracts: what a search asks the store for, how the results of
several queries are merged (deduplication, multi-query bonus, threshold,
ordering), how keyword and vector rankings are fused, how symbols are
expanded, how results are previewed and rendered as text, Markdown or
terminal listings, and the decisions an indexing run takes.

- `src/` — the verified library.
- `tests/` — tests of the library on concrete values.
- `app/` — the command-line arguments, file system walking, the on-disk
  keyword index and JSON output, around the library.

Distances, similarities and scores are integers in millionths; fusion
scores are in units of `1e-11`.
