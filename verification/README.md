# routematch

Checks URL paths against route patterns such as `/users/:id(\d+)`,
`/assets/*path` or `/report/:id/:format?`, and reports which routes of a
routes file a path matches, why the others do not, and which routes could
both match the same path.

The library under `src/` is verified with Verus:

- `text` — the character view of strings, trimming, splitting on a
  separator, joining, decimal numbers;
- `constraint` — the small pattern language of `:id(\d+)`: parsing, and a
  backtracking matcher proved equal to "the value can be cut into one run
  per atom";
- `router` — segments and reading a pattern into them, splitting a path;
- `matching` — matching segments against path components, listing every
  route of a table that a path matches, explaining a failed match;
- `overlap` — whether two patterns could match the same path;
- `routes` — reading a routes file;
- `render` — the text and JSON forms of matches.

`app/main.rs` is the command line front end: it reads the routes file and
prints what the library computes.

```
routematch <routes-file> <path> [--json] [--path-only] [--explain]
```
