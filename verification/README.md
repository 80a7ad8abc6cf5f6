# transaction

Accounting reports over a personal ledger kept in SQLite: account balances,
stock holdings and their market value, the adjusted cost base (ACB) of each
holding with its yearly gain/loss breakdown, distributions, tax-shelter
contributions and account statements.

- `src/` is the verified library. Every function takes the rows that a query
  returned and computes the report; its contract states the report over
  mathematical models (`DecValue` for decimals, `Seq`/`Map` for collections).
  Decimal arithmetic is done by `bigdecimal` through small trusted functions in
  `src/decimal.rs`; everything else is proved.
- `app/` runs the SQL with `sqlx`, converts the rows, checks what the library
  requires of them, and calls the library.
- `tests/` exercises the library on concrete ledgers.
