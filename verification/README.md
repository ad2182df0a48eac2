# contextzip

Compacts the noisy output of developer tools so that less of it has to be
read: build errors grouped by error code with every `file:line` kept, stack
traces with framework frames folded away, and short summaries of `wget`
downloads.

The library under `src/` is written in Verus. Each public function states in
its `ensures` what it returns, over spec functions of `Seq<char>` and
integers, and the properties that span functions are stated and proved as
public proof functions whose names begin with `law_`.

- `text`: characters, lines, trimming and decimal numbers, with their specs.
- `pattern`: the bridge to the `regex` crate; what a pattern matches is
  named, not restated.
- `order`: the stable sort and deduplication used by the reports.
- `build_cmd`: grouping of TypeScript, ESLint, cargo, mypy and pylint errors.
- `error_cmd`: deduplication of repeated lines and stack trace compression
  for Python, Node.js, Rust, Go and Java.
- `wget_cmd`: the saved file's name, sizes, URLs and error summaries.
- `verify_cmd`: the verdict on a run of inline filter tests.

`app/` holds the command line front end: it reads standard input or runs
`wget`, and hands plain values to the library.
