# exchange

The verified core of a small exchange: a limit order book with price-time priority
matching, the balance operations of the user service, the registry of markets of the
matching engine, and the authorisation decisions of the HTTP API.

- `src/` is the library, checked by Verus.  `amount` holds decimals as mantissa and scale
  and calls `rust_decimal` for comparison and arithmetic; `book_spec` is the mathematical
  model of the book and of matching, with its laws; `book` implements the book against it;
  `balances`, `engine`, `market_task` and `api` hold the rest of the logic.
- Decimals are followed exactly as `rust_decimal` computes them, scale included: where an
  addition or subtraction is exact its result is stated (`sum_amount`, `diff_amount`),
  and where `rust_decimal` rounds, its result is named (`decimal_sum`,
  `decimal_difference`).  `book_run` is matching as the book runs it on every input;
  `book_spec` is the same where the arithmetic is exact, with the laws of matching.  An
  order whose matching would make `rust_decimal` overflow (where it panics) is refused by
  the market task (`can_place`).
- A side of the book is a vector of price levels kept in ascending price order, each a
  vector of orders oldest first.  Prices are decimals ordered and compared by value
  (`1.0` and `1.00` are one price), which is not the order of their representation, so
  the levels are kept sorted by the book itself, with that order among the proved facts.
- `app/` runs the three services (API, engine, balance service) over axum, Kafka and Redis.
- `tests/` exercises the library.
