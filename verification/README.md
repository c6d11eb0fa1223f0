# hft

A verified limit order book engine, written in Verus.

`src/` is the library, every function of it verified:

- `pool`: the order pool, a slab of order slots with an intrusive free list.
- `orderbook`: the book of one instrument, one FIFO queue per price level and
  side linked through the pool, bitmaps of the non-empty levels, matching
  with iceberg orders and self-trade prevention, cancels and modifications.
- `market`: the mathematical model of a book and its pool, and the meaning
  of every book operation on it; the contracts of `orderbook` are stated
  over it.
- `properties`: laws of matching proved on the model: conservation of
  quantity, trades within the limit, a cancel undoing an add, and books
  staying uncrossed.
- `ledger`: the account of the pool's slots: every slot is free or rests
  once in its level, and every resting order is found through the order-id
  index; every message keeps it.
- `exchange`: one book, pool and market maker per ticker, and the routing of
  messages to them.
- `strategy`, `risk`: the market maker and the pre-trade risk gateway.
- `queue`: a bounded ring buffer with wrapping counters.
- `message`, `network`: the journal record and the order datagram formats.
- `workload`: the synthetic order flow of the benchmark.
- `bits`: facts about single bits of a word.

`app/` is the benchmark program around it: threads pinned to cores, the
memory-mapped journal, the UDP gateway and timing. `tests/` runs the library
on concrete scenarios.
