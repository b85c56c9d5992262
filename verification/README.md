# lob_engine

A market microstructure simulator whose logic is verified with Verus:
deterministic replay of LOBSTER order flow, a price-time priority matching
engine, a seeded co-location latency race, and three strategy experiments.

## Layout

- `src/` — the verified library.
  - `market_events`, `text`, `fields`: event model, decimal rendering, CSV
    field splitting and integer parsing.
  - `ladder`, `sides`: price ladders of FIFO queues and the two-sided book
    with its order-id index; `BookView` is the mathematical model.
  - `orderbook`, `replay_engine`: the replay book (add, cancel, delete,
    execution, anonymous LOBSTER deltas, snapshots, hashing) and replay.
  - `matching_engine`: GTC/IOC/FOK, market and limit orders, cancel and
    replace, each specified by a spec function over `BookView`.
  - `lobster_parser`, `validator`: LOBSTER message and orderbook rows, and
    event-by-event validation against the published book.
  - `latency_sim`: seeded xorshift latencies, packet loss in parts per
    million, arrival ordering by `(arrival_ts, sequence)`, the latency race.
  - `analytics`, `strategies`: bounded series, histograms, and the
    market-making, imbalance and latency-arbitrage experiments.
  - `lab`: the integer parts of the command-line report and the live-lab
    stream payloads.
  - `matching_laws`, `book_laws`: proofs of properties that span operations
    (price-time priority, fill-or-kill, books that never cross, add then
    delete, and more).
- `tests/` — executable tests.
- `app/` — the command-line tool and the live-lab HTTP server: file and
  socket I/O, timing, and the floating-point figures of the report.
