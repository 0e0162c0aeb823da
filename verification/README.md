# Proof Terminal

A paper-trading terminal for perpetual futures. `src/` is the verified library,
`app/` the program around it, `tests/` run the library.

- `double`: 64-bit binary floating point on its bits, each operation proved to
  give the nearest number; decimal notation both ways.
- `text`, `lists`, `json`: characters, sequences, and JSON read by `serde_json`.
- `timeframe`, `market`, `candles`: market data, its series and windows.
- `ws`, `rest`: what the exchange sends and what it is asked.
- `feed`: the feed as a machine that names the work to be done outside.
- `paper`: the paper account.
- `format`, `desk`: how numbers are written, and the desk that shows them.

Where functions have laws in common, a module `laws` states them.
