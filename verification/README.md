# neutral_grid

A bot that keeps a neutral grid of orders on a perpetual swap and bounds it by two options.

- `src/` is the library: reading and writing amounts, client order ids, the shape of the
  grid, which orders it should have open, what to cancel and to place, what messages of the
  exchanges mean, how requests are signed, and what the bot does next. It is verified with
  [Verus](https://github.com/verus-lang/verus); what is trusted are the few functions that
  call outside crates, whose comments say what is claimed of them. Its modules:
  - `text`, `amount`, `wide`, `decimal`: texts, and amounts in units of 10^-10, read, computed
    with and written.
  - `json`, `rest`, `signing`: documents, requests and answers, signatures.
  - `models`, `book`, `state`: orders and their ids, and what is known of the account.
  - `geometry`, `grid`, `scan`: the shape of the grid, its orders, and reconciliation.
  - `okx`, `session`: the exchange of the grid and its trading session.
  - `binance`, `options`: the exchange of the options, and which of them are picked.
  - `strategy`: starting, setting the grid up, and keeping it.
- `app/` is the program around it: connections, timers, signals, and the curve of the grid's
  prices, which takes floating point.
- `tests/` holds the tests of the library.

Amounts are `i128` in units of 10^-10 and cut off at 10^18; what is no number is no amount.
