# clubs_diamonds

A brute-forcer for short mathematical Rust expressions, for code golf: it
enumerates every expression of a given length over a few integer variables
and keeps those a user-supplied judge accepts.

- `src/` is the verified library (Verus): the byte code of expressions and
  its evaluation (`pivot`, `number`, `expression`), rendering and parsing
  (`render`, `parse`, `revar`, `text`) with the proof that parsing reads
  back what rendering writes (`roundtrip`), the enumeration of expressions
  (`expression_writer`, `partition`, `writers`), the decisions of a search
  (`manager`, `search`, `worker`, `dashboard`, `ui`), and helpers (`compare`,
  `durations`).
- `app/` drives a search: worker threads, channels, the clock, and the
  ratatui text interface.
- `tests/` exercises the library on concrete values.
