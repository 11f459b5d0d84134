# gyroflow-bench

Benchmark harness for the Gyroflow stabilization hot path, with its logic verified by Verus.

- `src/` is the library: what is measured and in which order, the statistics of frame times,
  the comparison of two runs, and the names and texts of results. Every function states its
  behaviour in a contract.
- `app/` is the program: command line, files, processes, the stabilization engine and
  floating-point arithmetic.
- `tests/` runs the library.
