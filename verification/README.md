# smells

`smells` analyses a folder of source files and reports code metrics as JSON:
the number of lines of each file, and its social complexity (the authors
that git blame finds for its lines). Every folder in the report carries the
summary of the metrics of the files below it.

The library under `src/` is verified with Verus:

- `metrics/`: what a metric value is, the lines count and social complexity
  metrics, and how two values of a metric aggregate;
- `analysis_module/analysis.rs`: the analysis of a folder from the analyses of
  its files, placed in a tree by their paths; `folder_summary.rs` proves that
  every folder of that tree summarises the files below it and lists its
  entries sorted by name;
- `analysis.rs`: a second form of the same analysis, whose scores are
  optional and which refuses a file path without a file name;
- `formatters/json.rs`: the JSON form of an analysis;
- `cli.rs`: a small command line prototype that analyses one folder;
- `paths.rs`, `text.rs`, `sorted_map.rs`: path components, text helpers and
  maps held as sorted vectors.

The program under `app/` does the input and output: it lists files with
`glob`, reads them, asks git through `git2`, parses the command line with
`structopt` and prints JSON with `serde_json`.
