# nom_sql

Parts of a restricted SQL `SELECT` toolkit, verified with Verus.

- `src/lexeme.rs`: whitespace runs, case-insensitive keywords and unsigned
  decimal numbers over bytes, each with its specification.
- `src/select.rs`: the `LIMIT`/`OFFSET` clause parser, the `SELECT`
  statement's clauses and the SQL text that each renders to, and the laws that
  tie parsing and rendering together (round trip, case and leading whitespace).
- `src/create.rs`: `CREATE TABLE` and `CREATE VIEW` statements and their text.
- `src/text.rs`: decimal notation and separator-joined lists of strings.
- `app/`: serde-enabled copies of the statement types with `Display`.

Field expressions, tables, conditions, join operands and `ORDER BY` clauses are
held as their SQL text.
