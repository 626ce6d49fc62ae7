# cmudb

A small disk-oriented database whose parts are proved with Verus: what a function does is stated
in its `requires` and `ensures`, and what holds of several of them in public proof functions named
`law_...`.

| module | what it holds |
|---|---|
| `buf`, `text`, `errors` | bytes, numbers as text, the texts of errors |
| `disk` | pages in a file, and where each of them stands |
| `replacer`, `buffer_pool` | adaptive replacement, and the pages in memory |
| `table_heap` | tuples in slotted pages; a table is one page |
| `index` | B+ trees on pages: format, search, insertion, removal, scans, a view as text |
| `catalog` | values, schemas, keys, tables and indexes |
| `ast`, `parser`, `planner` | from statements to plans |
| `processor` | expressions, plans and the steps that run them |

Integers overflow into errors, never silently. Arithmetic on floats is handed in by the caller as
a function on bits. The library touches no files and starts no threads: `app/` keeps pages in
files, turns SQL text into statements and prints what they give.
