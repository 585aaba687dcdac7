# tome

A central limit order book with price-time-priority matching, written and
verified in Verus.

- `src/types.rs`: prices, quantities, sides, trades, snapshots.
- `src/model.rs`: the mathematical model of a book, and what each operation does
  to it.
- `src/engine.rs`: the `Engine` trait, with the contract of every operation over
  the model.
- `src/pool.rs`, `src/shelf.rs`: the arena of resting orders, the FIFO lists
  threaded through it, and the id index.
- `src/book.rs`: `OrderBook`, with its levels in a `BTreeMap`.
- `src/bitset.rs`, `src/ladder.rs`: `LadderBook`, with its levels in a flat array
  and an occupancy bitmap over it.
- `src/journal.rs`: event logs, and replaying them into any engine.
- `src/sim.rs`: deterministic synthetic order flow.
- `src/ledger.rs`, `src/laws.rs`: what holds of the library as a whole.
- `app/`: a demo and a latency report.

Nothing in the library is trusted beyond Verus and its standard library.
