# Passive fill simulator, verified core

Simulates passive limit-order fills on Binance BTCUSDT perpetual futures by
replaying the public `aggTrades` and `bookTicker` feeds, with queue position
modelled explicitly. Prices and quantities are scaled integers throughout
(prices by 100, quantities by 1000).

Layout:

- `src/order.rs`: a resting order's queue accounting (`OpenOrder::on_trade`,
  `OpenOrder::on_tick`) and the laws of trade absorption.
- `src/text.rs`: byte-level reading of digits, integer literals and
  comma-separated fields, each specified over `Seq<u8>`.
- `src/parser.rs`: fixed-point field parsing (`parse_scaled`) and the two feed
  row formats, with their exact specifications and laws.
- `src/sim.rs`: the replay's decisions: which feed to advance, when the quote
  is placed, what a trade or a book update does to each live order.
- `app/`: the file readers, the replay loop that prints what happened, and
  `main`.

The tests under `tests/` run the library on concrete rows and orders.
