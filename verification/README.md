# lcov_filter

Removes LCOV entries for source lines marked with exclusion comments
(`LCOV_EXCL_LINE`, `LCOV_EXCL_START` … `LCOV_EXCL_STOP`, or custom markers)
and reports the lines that remain uncovered. The library is written in Verus
and its behaviour is proved against specifications.

Layout:

- `src/text.rs`: characters, prefixes and substrings, `str::lines`-style line
  splitting, decimal numbers.
- `src/markers.rs`: markers and the source lines they exclude.
- `src/entries.rs`: the entries of a record (`FN:`, `FNDA:`, `DA:`, `BRDA:`,
  summaries) and reading them.
- `src/paths.rs`: when two spellings of a file path name the same path.
- `src/lcov.rs`: records of a report, what each record becomes once its
  source's excluded lines are known, and the filtered report.
- `src/report.rs`: the text report of missing lines.
- `src/cli.rs`: command-line options and what a run prints.
- `app/main.rs`: the command; it reads stdin and the source files named by
  `SF:` records and hands their contents to the library.
