# noice

Trade bookkeeping for an EVE Online character's wallet, verified with Verus.

`src/` is the verified library:

- `settlement` — the queue of waiting purchases and the first-in, first-out
  settlement of sales against it, with its laws (every unit sold is settled
  exactly once; a sale draws what waits for it; older purchases go first;
  the queue stays ordered by transaction id).
- `wallet_sync` — when a wallet is fetched again, how far back the game's
  journal is paged, which transactions are new, and the API paths.
- `dashboard` and `ordering` — the days shown, the rows of settled trades,
  the grouping of trades by day and by item, and a stable descending sort.
- `auth` and `characters` — token expiry and renewal, the character a sign-on
  token names, the session cookie, new characters, and the settings form.
- `moment`, `decimal`, `text` — dates and times as plain values (calendar
  arithmetic is left to `chrono`), whole numbers in decimal, small text
  operations.
- `models`, `view_models` — the records. Prices are single-precision numbers
  in the game's data and are carried unchanged as `f32` bit patterns.

`app/` is the web application around it (Rocket routes and templates, Diesel,
the game's API and sign-on), and computes the amounts of money from the
prices. `tests/` exercises the library.
