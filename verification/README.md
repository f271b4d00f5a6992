# order_matching

A limit order book and matching engine, verified with Verus.

Orders for a symbol meet in that symbol's book. An incoming order trades
against the other side in price-time priority: best price first, and at one
price the oldest order first, for as long as the prices cross its limit and it
still wants quantity. What is left of a limit order rests in the book; a market
order is filled completely or refused.

Layout:

- `src/models/`: orders, requests and responses, trades, book snapshots.
- `src/orderbook/`: price levels (FIFO queues with a running total) and books
  (sorted levels per side, plus an index of where each order rests).
- `src/matching/`: the engine (books by symbol, every order ever accepted,
  trade counter), what a submission does to it, and counts over it.
- `src/laws.rs`: properties of the engine as a whole, proved.
- `src/error.rs`, `src/metrics.rs`, `src/api/`: errors with their status codes
  and messages, the latency range, the order book query.
- `src/sources.rs`: identifiers, clock readings and the text of identifiers and
  numbers, from `uuid`, `chrono` and `std`.
- `app/`: the HTTP service (axum), JSON forms of the types, latency metrics.
