# oisy_trade

The core of a limit-order exchange, written in Verus: every function in
`src/` carries a contract, and Verus proves all of them but the few small
wrappers around outside calls (principal bytes and text, durations,
`String::push`), whose contracts are trusted.

- `src/book.rs`, `plan.rs`, `queue.rs`, `order.rs`: the order book — price-time
  priority matching, fill-or-kill planning, pending orders, snapshots, depth.
- `src/settlement.rs`, `match_settlement.rs`, `fees.rs`: what a matching round
  settles into — notionals, fees, balance operations, per-order updates, trade
  legs.
- `src/balance.rs`, `ledger.rs`: balances and the canister-wide ledger, whose
  per-token supply only deposits and withdrawals change.
- `src/history.rs`, `order_history.rs`, `trade_history.rs`, `records.rs`:
  append-and-index stores of orders and trades with newest-first paging.
- `src/ids.rs`, `keys.rs`, `bytes.rs`, `text.rs`, `identity.rs`, `assoc.rs`:
  identifiers, their byte and hex forms, and the supporting theory.
- `src/scheduler.rs`, `execute.rs`: the task timer and the chunked matching
  driver, each a decision function that its host runs.
- `src/funds.rs`, `withdrawal.rs`, `refusals.rs`, `guard.rs`, `logging.rs`:
  deposits and withdrawals — the checks before the ledger is asked, one
  operation at a time per caller and token, the transfer with one retry when
  the ledger's fee changed, crediting back what the ledger did not pay out,
  what a ledger's refusal means to the user, and which failures are logged.
- `src/requests.rs`, `log_query.rs`, `dashboard.rs`, `metrics.rs`: request
  checks (new pairs, depth and event pages, log queries) and the figures
  shown on the dashboard and metrics page.

`app/` holds what cannot be verified: stable-memory encodings, conversions
to and from Candid naturals, and the host loops that run the withdrawal,
deposit, timer and matching decisions against the outside work passed in. `tests/` exercises the library from outside.
