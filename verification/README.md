# kryzhen

Forward-only, dependency-resolved SQL migrations for PostgreSQL, as a Verus library with a
command line around it. Migrations are plain `.sql` files that carry a `#!migration` header in
SQL comments:

```sql
-- #!migration
-- name: "tables/phone",
-- description: "Phone numbers attached to a person.",
-- requires: ["tables/person"];
CREATE TABLE phone (id bigint);
```

The library decides, on plain values and with a contract for each decision; the program reads
files and rows, hands them over, and does what it is told.

| Module | What it holds |
|---|---|
| `types` | Migrations, their checksum, the library's errors. |
| `grammar`, `grammar_join`, `parser` | The file format as functions on text, and the parser that is proved against them. |
| `file` | Which files count, and the implicit dependency of each block on the one before it. |
| `graph`, `schedule` | The dependency graph and its smallest-first topological order. |
| `validation` | Duplicate names and changed checksums. |
| `ledger` | What the tracking tables hold. |
| `run` | Preparing and planning a run. |
| `hack` | Recording, fixing and forgetting migrations by hand. |
| `sqlx_import` | Conversion of sqlx migrations and import of their history. |
| `postgres`, `connection` | Identifiers, schemas, TLS modes, the password file. |
| `messages` | What the command line reports. |
| `text`, `search`, `render`, `hash` | Text, numbers and digests. |

`grammar_laws`, `graph_laws` and the sections headed "Laws" state what holds across functions:
that the order of a run is unique and respects every requirement, that running again applies
nothing, that an edited file is caught, that a converted file parses back, and so on.

`app/` is the command line program: arguments, files, TLS, the database.
