# mix_test_filter

A filter for the console output of `mix test` (Elixir's ExUnit), written in
Verus and proved against its specifications.

The filter removes ANSI colour codes, scans the output line by line, keeps
the failure reports (without stacktrace lines that point into dependencies
or the runtime), and prints a short summary: one line for a passing run, or
the counts followed by at most five compacted failures. Output without a
summary line falls back to its last five lines.

The run time on the `Finished in` line is found by the library
(`duration_word`); printing it as seconds with two decimals is
floating-point work, done in `app/` and handed to the library as text.

Layout:

- `src/text.rs` — Unicode white space, trimming, lines, joining.
- `src/digits.rs` — decimal digits (`\d`), reading and writing numbers.
- `src/ansi.rs` — removal of ANSI control sequences.
- `src/patterns.rs` — the line grammar of ExUnit output.
- `src/duration.rs` — the run-time word of the `Finished in` line.
- `src/report.rs` — compaction of failure reports and the summary text.
- `src/filter.rs` — the scanning state machine and `filter_mix_test_output`.
- `src/facts.rs`, `src/laws.rs` — lemmas and the proved properties.
- `app/lib.rs` — the run time in seconds, the complete filter, and `run`,
  which runs `mix test` and prints the filtered output.
