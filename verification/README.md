# matcher

A price-time-priority matching engine for a prediction market, with its
matching logic verified in Verus.

- `src/types.rs`: orders, fills, submissions and the aggregated book view.
- `src/book.rs`: the book (a `BTreeMap` of FIFO queues per side), the
  mathematical model of matching (`match_spec`, built from `sweep` and
  `fill_level`), `match_order` proved equal to it, and `Book::snapshot`
  proved to list every level once, best price first, with its total.
- `src/laws.rs`: properties proved of every match: quantity conservation,
  price priority, time priority within a level, preservation of a
  well-formed (never crossed) book, and uniqueness of the aggregate view.
- `src/engine.rs`: the matcher's decisions per batch of orders read from
  the log: match each order, then publish the aggregate or idle.
- `app/`: the program around the library: the HTTP/WebSocket API, the Redis
  stream consumer, and the JSON forms of the types.

