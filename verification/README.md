# jev_datafusion

The SQL functions `noul`, `choice`, `score` and `ask` for DataFusion, with their
logic proved in Verus.

- `src/` is the verified library. It reads the values of a row, writes them as
  one byte form, checks calls while a query is planned, decides when a request
  is sent again, shares answers between rows, and moves cheap filters below
  calls that cost money. Public proof functions state what holds of it as a
  whole: `equivalence` and `distinct` (values mean the same exactly when their
  bytes are the same), `settled` and `parse` (what is written is read back),
  `state_laws`, `number`, `planner`, `reuse`, `spend` and `joins` (rewritten plans
  keep their rows), `provider`, `udf`.
- `app/` connects the library to DataFusion, Arrow and HTTP.
- `tests/` runs the library on concrete values.

What is taken on trust stands beside its doc comment: wrappers round calls into
`serde_json`, `arrow`, `datafusion`, `parquet`, `httpdate`, `fastrand` and `std`.
