# Legal service router

Constraint-based routing to accessible public legal-service locations. A point is
offered to an applicant only if it has the service, has every capability that the
applicant's needs call for, and is open; only then are costs compared. Catalogs
are versioned, answers are pinned to one version, and home appointments are given
out until the capacity of a version is used up.

The library under `src/` is written in Verus: what each function does is stated in
its contract and proved. `app/` is the server around it.

## Library

| Modules | What they hold |
|---|---|
| `text`, `order`, `keyed`, `grouping` | texts in lexicographic order, stable sorting, ordered maps and sets, lists split up by point |
| `instant`, `distance`, `json`, `ident` | instants and their RFC 3339 text, grid distances, JSON text, snapshot ids |
| `error`, `catalog`, `routing` | catalogs in plain form, their validation, and routing over them |
| `models`, `router`, `capacity`, `api`, `db` | the service: routing, home appointments, remembered answers |
| `model`, `planner` | catalogs in normal form, with closures and degradations, and routing over them |
| `rows`, `import`, `store` | the rows in which a catalog is stored, and the versions in memory |
| `*_laws` | what holds across functions: order of input, precedence, capacity, versions, storage |

Calls into `chrono`, `serde_json`, `uuid` and the standard library that the proofs
take on trust stand in small functions of their own in `instant`, `json`, `ident`
and `store`; the comment above each says what is taken on trust.

## Server

`app/` serves the service at the root, the catalog store under `/store` and
routing over a catalog that comes with the request under `/preview`. It takes the
SQLite file from `ROUTER_DB`, the port from `PORT`, and a catalog to import at
startup from `--import <path>`.
