# protohackers

Seven small network services and the verified logic behind them.

- `src/` is the library, verified with Verus. Each service has a module:
  `budget_chat` (chat room membership and announcements), `line_reversal`
  (the LRCP message format, session table and handlers), `means_to_an_end`
  (price store and mean price), `mob_in_the_middle` (Boguscoin address
  rewriting), `prime_time` (primality), `speed_daemon` (binary wire format,
  road state and ticketing) and `unusual_database` (key/value store).
  `assoc`, `decimal`, `parsing` and `text` hold shared definitions and
  lemmas.
- `app/` is the executable around it: sockets, tasks, channels, timers,
  JSON and logging. `protohackers <service>` runs one service on port 8080.
- `tests/` runs the library on concrete inputs.
