# projecta

A collection of small, verified Rust libraries checked with Verus. Each module in `src/`
states its behaviour in `requires`/`ensures` contracts over mathematical models
(sequences, sets, maps, multisets) and proves it:

- `regex`: a backtracking regular-expression engine: parser (with the exact set of
  accepted patterns and errors), simplifier (exact result shape, idempotent, keeping
  the matches and their order), matcher (every way of matching with its end and capture
  groups, in the order the matcher tries them) and search.
- `kway`, `priority_queue`, `sorted_search`, `order`: heaps, k-way merging (sorted
  output for sorted inputs), binary search and comparison laws.
- `lru`, `interning`, `timeseries`, `streaming`: caches, string interners, windows over
  time series, streaming group-by.
- `packets`, `plugins`, `csv_records`, `user_import`, `safe_config`, `config_check`:
  packet parsing and flow tracking, a plugin lifecycle, CSV record validation and
  configuration checking.
- `config_schema`: JSON configuration documents (parsed by `serde_json`, held as plain
  values), dotted-path lookup, schemas of required fields with user checks, and the
  error report.
- `expression`, `tokens`, `combinators`, `propgen`, `mutation`, `source_coverage`,
  `underlines`, `scraper`, `fixed`, `parallel`, `text`: the remaining utilities.

Calls into the standard library or outside crates that Verus cannot read (the clock,
`rayon::join`, number parsing, Unicode case mapping, JSON parsing, terminal colours) stand behind small trusted
wrappers whose contracts restate the documentation of the called function.

The tests in `tests/` run the library on concrete values.
