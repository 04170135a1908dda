# picobench

A small benchmarking harness. The library in `src/` holds its logic, with
contracts proved by Verus:

- `sampler` — the decisions of a benchmark run: warm-up batches that double
  until the warm-up time is spent, then samples of a fixed number of
  iterations (at least one) until both the least sample time and the sample
  size are reached, so that a finished run has sampled at least `sample_size`
  iterations. The caller runs each batch and reports its time.
- `tree` and `partition` — grouping of benchmark results into trees by the
  segments of their paths, with the laws that every benchmark appears once
  and that each level is ordered.
- `table` — the results table: the tree drawn with box characters, the
  styled cells, the column widths and the padding that lines them up.
- `units` — the short form of iteration counts (`12.3k`), computed in
  integers. The proved contract states the rounding as binary64 division
  rounded to nearest, ties to even, then one decimal rounded the same way;
  that this is what Rust's float formatting prints is not proved, it is
  checked by the tests against `format!("{:.1}", ..)`.
- `metadata` — the target directory read from the JSON that
  `cargo metadata` prints, parsed with `tinyjson`.
- `shape` — the law that every level of the grouped trees is in order and
  that no group is empty.
- `reorder` — the law that the grouped trees do not depend on the order of
  the results when no two results share a path.
- `names`, `order`, `text` — benchmark paths, the order of texts and paths,
  and small text helpers.

`app/` is the rest: the registry of benchmarks, the clock, the files of
earlier results, the floating-point statistics and the terminal output.
