# datatoolkit_football

Football results analysis on typed data tables, with its logic verified by
Verus.

- `src/` — the verified library:
  - `text` — integer and decimal-number recognition, trimming, decimal
    rendering and the order of texts;
  - `data`, `table` — typed values, records and tables, grouping and
    filtering, reading CSV bytes (with the csv crate) under requested
    headers;
  - `ordmap` — an ordered map kept as a sorted list of entries;
  - `dates` — day numbers of `dd/mm/yy` dates (with chrono);
  - `football` — typing and cleaning the results files (from their bytes),
    the master table, goal superiority, result summaries and counts,
    histogram and betting tallies, match counts and final league tables, and
    the proof that the goal-superiority table does not depend on the order
    of the records.
- `tests/` — tests of the library on concrete values.
- `app/` — the program: reading the files' bytes, writing JSON, CSV and SVG,
  and the regression models (floating point).
