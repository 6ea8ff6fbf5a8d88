# matchbox

A price-time priority matching engine for a limit order book, verified with Verus.

- `src/models.rs`: orders, fills, order submissions, snapshots.
- `src/levels.rs`: the mathematical model of one side of the book (price -> FIFO queue),
  sorted price listings and level totals.
- `src/book.rs`: `OrderBook` (a `BTreeMap` of `VecDeque`s per side and an id index), its
  view `BookModel`, best prices and snapshots.
- `src/matcher.rs`: `match_order` / `match_order_at` and the specification of a sweep of
  the resting side (`sweep_level`, `sweep_side`, `book_after_match`).
- `src/laws.rs`: properties proved of every match: quantities add up, fills are at the
  makers' prices within the taker's limit, price and time priority, the book stays
  uncrossed and well formed, the index keeps tracking the resting orders; snapshot order;
  when a sweep stops, what it leaves alone, the own side gaining the unfilled part, the
  bound on the number of fills, the fills in closed form over the priority queue of
  crossing makers, and what each maker keeps afterwards.
- `src/requests.rs`: checking an order submission.
- `src/worker.rs`: the engine worker's decisions (leader lock, lease refresh, queue).
- `src/clock.rs`: the wall clock and its reading as a 64-bit nanosecond count.
- `app/`: the HTTP/WebSocket server (axum, Redis through fred, tokio) around the library.
