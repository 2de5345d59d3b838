# orderbook

Price-time priority order books, written in Verus: what each operation does is
stated in its contract and proved.

* `order_book::OrderBook` takes limit orders, iceberg orders and stop orders,
  and records what happens in an event store.
* `exchange::OrderBook` checks its input, reports every trade on a channel,
  answers depth queries and cancels resting orders.

In each of them, `model` says what the book is and what its operations do, as
mathematics; `soundness` says what holds of it at any time; `laws` and `history`
state what follows of the book as a whole, the latter over sequences of
requests; `book` is the code. The exchange book has two more: `accounts` follows
quantities through trades, and `renumbering` shows that skipping an id changes
nothing else.

The contracts rest on what is stated, without proof, of the outside crates:
`exchange/index.rs` (dashmap), `exchange/tape.rs` (crossbeam-channel) and
`clock.rs` (the wall clock of std).

The exchange book reports on a channel without a bound, so that it never waits
for room; `OrderBook::try_new` turns any other one down.

`app/` is a sample program, with a book behind a lock for use from many threads.
