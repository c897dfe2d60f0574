# cex_engine

The matching engine and balance ledger of a small centralised exchange
(one market, SOL against USD), verified with Verus, plus the programs that
serve it over Redis and HTTP.

## Layout

- `src/` — the verified library
  - `orderbook.rs` — the limit order book: two queues in price-time
    priority, matching, cancelling, depth and per-user snapshots
  - `book_model.rs` — the book's mathematical model (`BookView`, what a
    valid book is, `sweep`, `placed`, `lookup`, `depth`) and its lemmas
  - `book_laws.rs` — theorems about the book: price-time priority, the
    spread, fills from the front, no quantity lost, cancel undoes a rest,
    the depth levels, a user's open orders, the order count
  - `ledger.rs` — `Balance` and the per-user table of asset balances
  - `state.rs` — `EngineState`: balances plus the SOL book
  - `engine.rs` — each request: sign-up, on-ramp, deposit, placing and
    cancelling orders (lock-first), settling fills, queries
  - `funds.rs` — the lock-first theorem: each user's locked funds are
    exactly what their resting orders still need (`price * remaining` USD
    per bid, `remaining` SOL per ask), and no request creates or destroys
    funds
  - `users.rs` — the gateway's user store
  - `auth.rs` — taking the bearer token out of an `Authorization` header
- `tests/` — the book's unit tests and tests of the engine, the user store
  and the header parsing
- `app/` — `main` with two modes, `engine` (Redis loop) and `gateway`
  (actix-web HTTP API with JWT authentication)

## Why the book keeps its sides in vectors

Each side of the book is one `Vec<Order>` in priority order (best price
first, then arrival), with the invariant that it is strictly in that order,
that no id occurs twice and that every bid is below every ask. A
`BTreeMap` of price levels, each a `VecDeque` of ids, plus a `HashMap` from
id to order would hold the same information, but the operations the book
needs on them have no specification in vstd: `BTreeMap::first_key_value`,
`last_key_value`, `entry` and `get_mut`, reverse iteration over a
`BTreeMap`, and `VecDeque::front` and `iter().position`. Without those the
matching loop cannot be proved. The price is speed: finding, inserting and
cancelling an order walk the vector, O(n) where the maps were O(log n) or
O(1). The balances stay in a `HashMap` keyed by user id, which vstd does
specify; the per-user asset table is a vector of (symbol, balance)
entries, because nothing can be proved about a `HashMap` with `String`
keys.
