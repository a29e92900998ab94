# minka_ledger

A forecast-first personal ledger, written in Verus. Double-entry core, RFC 5545 recurrence, and a
projection that is a function over rules rather than a table of stored guesses.

## Shape

- Every payment is a set of legs that come to zero, per currency. The functions that build one prove
  it.
- Amounts are signed 64-bit counts of a currency's smallest unit. `src/money.rs` holds the one
  rounding rule.
- The forecast is worked out, never stored. A what-if is an argument.
- An edit of a recurring payment is decided before anything is written: what it changes, what it
  would detach, and why it is refused.

## Layout

    src/     the library: every function has a contract, and the laws stand beside the functions
             they are about as `law_...` proof functions
    tests/   what it does on concrete values
    app/     the program: SQLite, files, the exchange-rate service, NDJSON on standard input and
             output

What the library takes from other crates goes through a few small functions whose contracts are
trusted: `chrono` reads dates, `rrule` expands rules, `csv` reads statements and `serde_json` reads
exchange rates and writes lists. Each says in its doc comment what is taken on trust.

The program keeps its book in one SQLite file and takes the schema's steps from a directory of
numbered SQL files, named by `MINKA_LEDGER_MIGRATIONS`.

## Protocol

    in   { "id": n, "method": "...", "params": {...} }   expects a response
         { "method": "...", "params": {...} }            fire-and-forget
    out  { "id": n, "result": ... } | { "id": n, "error": { "code", "message" } }

Malformed lines are ignored, and a handler that panics answers with an error.
