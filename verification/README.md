# payments_engine

A transaction-processing engine: it reads a CSV of payment operations
(`type, client, tx, amount`) and keeps the balances of client accounts.

Amounts are exact: they are held as integers counting ten-thousandths of a
currency unit, and the amount text of a row is rounded to four decimal places,
half away from zero, when it is read.

## Layout

| Path | Contents |
| --- | --- |
| `src/model.rs` | operations, input rows, recorded transactions, account balances, errors and their messages |
| `src/operations.rs` | the handlers of each operation, specified as steps over maps |
| `src/laws.rs` | properties proved across operations and runs |
| `src/decode.rs` | reading the fields of a row (operation names, integers, amounts) against the header |
| `src/csv_process.rs` | splitting a text into CSV records (the `csv` crate) and applying the rows in order |
| `src/output.rs` | the account report |
| `src/text.rs` | decimal text and character helpers |
| `app/lib.rs` | reading the file named on the command line and printing the report |
