# uaps

Universal Application Performance Snapshot: launch a program, sample it from the outside,
and report what bounds it.

- `src/` is the library, verified with Verus. It holds the decisions and computations:
  parsing `/proc`, `sysfs` and event tables, encoding counters, evaluating vendor metric
  formulas, deriving ratios, drawing conclusions, rendering JSON, reducing ranks. Every
  number is an IEEE double, computed in integers (`src/double.rs`), so that contracts can
  say which bits come out.
- `app/` is the program: it reads files, opens counters, launches the target and prints.
- `tests/` runs the library.
