# hft_mm

An Avellaneda-Stoikov market maker for a perpetuals exchange. The library in `src/` holds its
logic, with contracts that Verus proves; the program in `app/` holds the terminal, the web
server, the streams and the files around it.

- Numbers: `double` (IEEE 754 doubles over integers), `order` (how rounding respects order),
  `ticks` (prices on decimal ticks), `decimal` and `parse` (doubles as text), `text`.
- Data: `config`, `types`, `json`, `websocket` (what the market stream says).
- Exchange: `signing`, `exchange`.
- Trading: `strategy`, `risk`, `market` (books), `fills`, `markout`, `trading` (events),
  `quoting` (which orders are kept, changed, cancelled and added), `iteration` (a round of
  trading as a state machine).
- Sessions and display: `bot`, `api`, `console`, `dashboard`.
- What holds throughout: `laws`, `grid_laws` (the order of the quotes, and how inventory moves
  them), `spacing_laws` (when levels stay apart), `model_laws` (how near the quotes are to the
  model), `round_laws`, `wire_laws` (what is read of a number that was sent).

Logarithms and exponentials are evaluated by the caller: `config::LogTerms`, `market::Decay` and
the weights of `markout` carry their values in. Apart from `types::now_secs` and
`types::now_ts_ms`, which read the clock, the time is an argument.
