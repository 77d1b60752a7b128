# djdb

A lineup database for the KaleidoSky DJ nights: performers keyed by slug,
one show per night with its sets, the commands that edit them, an importer
for the legacy workbook, and the data behind the static site and an
editor's forms. The library in `src/` is verified with Verus; `app/` is the
command line and the file, workbook and HTML plumbing around it.

## Layout

- `src/text.rs`, `src/seqs.rs`, `src/sorting.rs`: character sequences,
  "first such element", and a stable insertion sort with its laws.
- `src/date.rs`: calendar dates, computed by `chrono`.
- `src/performer.rs`, `src/show.rs`, `src/data.rs`: the data model and its
  checks (`validate`, `validate_shape`, `Dataset::from_parts`).
- `src/commands.rs`: `add-set`, `new-performer`, `rename-performer`,
  `merge-performer`, `last-played`, `stale`, with the laws that each
  command keeps the data passing the checks.
- `src/import_text.rs`, `src/sheet.rs`, `src/import.rs`: reading the
  workbook's text and sheets, and planning an import (year inference,
  performer registry, times past midnight, merging by date).
- `src/site.rs`: site links, ET/JST times through `chrono-tz`, the landing
  page's shows, and each performer's appearances.
- `src/editor.rs`: the data side of an editor for shows and performers:
  the forms as typed, their checks, and the lists and searches. No window
  code is part of this crate.
- `app/`: `main.rs` (the `djdb check` command), `model.rs` (TOML forms of
  the types), `store.rs` (the data directory), `workbook.rs` (calamine),
  `site_build.rs` (maud pages).
