# bench_kernels

The computing kernels of a group of task-parallel benchmarks, written in
Verus and proved against their specifications.

- `merge_sort`: merge sort over a slice and a scratch slice, with the
  standard library's sort for short runs and a merge that replaces a used-up
  run by a sentinel.
- `glob_merge`: merge sort over an input buffer and two working buffers;
  long merges split at the middle of the longer run and at the binary-search
  position of that element in the shorter one.
- `window_sort`: the same sort over windows (`MutBuf`) of two buffers.
- `order`: what sorted means, and that a sorted arrangement is unique, so
  all the sorts above produce the same output.
- `check`: the test that the benchmarks run on a sorted output.
- `fib`: the doubly recursive Fibonacci numbers, with and without a
  threshold below which the sequential version takes over.
- `threshold`: base-case thresholds read as decimal digits.
- `random`: seeded uniform input.
- `tsp`, `tsp_bounds`: the distance table, its nearest-first neighbour rows
  and lower bounds, the branch-and-bound search in two visiting orders, and
  the proofs that the search finds the shortest route when the bounds never
  overestimate, which they do not for towns that do not coincide. The
  search's sums wrap around past `usize::MAX`, as in a release build; on
  tables of distinct towns no sum does, and on every generated table the
  search never raises the best length it was given.

`app/` holds the benchmark programs: argument handling, timing, output,
thread pinning and the rayon-parallel search. The Barnes-Hut program sits
there too but is not built: its body and tree modules are not part of these
sources.
