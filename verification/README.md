# crabaccess

An nginx access log analyzer: it parses combined-format logs, counts visits and traffic per IP,
path, user agent and status code, and per hour, day and month, and shows the results in a
terminal interface. Results can be saved to and loaded from a JSON database, and exported as CSV.

The library under `src/` is written in Verus; its functions carry contracts that the verifier
proves. A few contracts are trusted rather than proved, each documented where it stands: the
regular expression calls in `pattern`, the UTF-8 decoding of a line (`std::str::from_utf8`) in
`parser`, and the specification of `String::push` in `text`.

- `text`: characters, text order, decimal numbers, words.
- `counters`: visit and traffic counters, and `CounterMap`, counters kept by key in text order.
- `pattern`: regular expressions (the `regex` crate), behind a small trusted interface.
- `domain`: dimensions, time buckets, timestamps, grouping rules and `Aggregates`, with the laws
  of merging and the consistency that counting keeps.
- `parser`: log lines into records, files into lines, and chunked counting that agrees with
  counting line by line.
- `ranking`: the order of table rows and the selection of the top rows.
- `export`: the records of the CSV export.
- `cli`: settings, and the resolution of input paths into log files.
- `tui`: tabs, key handling, scrolling and labels of the interface.

`app/` is the program around it: command line parsing (`clap`), file access and memory mapping
(`memmap2`), parallel parsing (`rayon`), progress bars (`indicatif`), the database (`serde_json`),
CSV writing (`csv`) and drawing (`ratatui`, `crossterm`).
