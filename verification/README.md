# cpm-planner

A Critical Path Method planner with lock-aware cohort scheduling, verified with
Verus.

A caller submits a graph of deliverables. The planner computes the schedule
(earliest and latest times, float, critical path, parallel batches,
bottlenecks) and leases cohorts of ready deliverables whose files are disjoint,
so that several workers can run in parallel without colliding.

## Layout

- `src/` is the library. Every function has a contract that Verus proves; what
  holds of the library as a whole is stated as public proof functions in the
  modules whose names end in `_laws`, and in `existence`, `turns`, `resubmit`,
  `canonical`, `drag`, `risk`, `estimator`, `hash`, `submit`, `plan`, `planner`,
  `plan_store`, `stored_plan` and `stored_calls`.
- `src/bridge.rs` holds the calls into other crates. Their contracts are taken
  on trust, and each says what it claims.
- `tests/` runs the library.
- `app/` is the MCP server: JSON, SQLite, the clock, the audit sink and the
  stdio transport around the library.

## Units

Hours are whole millionths of an hour; estimates are exact fractions of them.
Times are whole microseconds since the Unix epoch. Ratios (speedup, return,
risk, efficiency) are fractions of two integers.

Files are named by paths with `/` between their parts.
