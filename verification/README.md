# timesheet

The timesheet and payroll rules of a dance studio's back office, written in
Verus and proved against their contracts.

- `src/` is the verified library: the weekly overtime walk (`overtime`), the
  per-period totals (`totals`), pay (`pay`), the payroll export's choices
  (`export`), and the decisions of the HTTP routes: role gates (`auth`),
  employee records (`employees`), time entries (`entries`), categories,
  session lengths and accounts. Decimal arithmetic goes through
  `rust_decimal` and week starts through `chrono`, behind small trusted
  wrappers in `decimal`, `dates` and `text`.
- `app/` is the axum/sqlx server around it: routes, database reads and
  writes, cookies, JSON and the .xlsx writer.
- `tests/` runs the library on concrete values.
