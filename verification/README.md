# sher_pe

The core of a Linux process explorer, verified with Verus: the model of a
process table, the process tree and its family rollups, the refresh-by-
refresh intelligence (per-run sample history, lifecycle timeline, CPU
utilization from tick deltas, memory-growth and new-connection detection),
the rule-based "why" investigation engine whose findings always carry the
evidence behind them, and the decisions of the command line, the desktop
process list and the background sampler.

- `src/` — the verified library. `intelligence.rs` and `investigation.rs`
  hold the main state machine and rules; `tree.rs`, `treeview.rs` and
  `chronology.rs` the tree and list algorithms; `text.rs` the decimal
  rendering every message is built from.
- `tests/` — tests of the library on concrete values.
- `app/` — the programs around it: the `sher` command line, the `sherd`
  sampler loop, the desktop view, SQLite history, serializable copies of
  the library types, and the interface a process-table reader implements.
