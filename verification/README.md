# personal_ranker

The core of a desktop tool that ranks a list of items by personal judgment:
drag ordering, 1v1 comparison (a full or sampled matrix, or binary insertion),
and slider ratings, with result confirmation, rank and score fields, and
export.

## Layout

- `src/` — the library, written in Verus. Every function carries a contract
  that Verus proves.
  - `import`, `json`, `text`, `paths` — reading TXT, Markdown, CSV and JSON
    into items, header normalisation, type inference, JSON pointers.
  - `comparison`, `matrix`, `slider`, `groups`, `ranking` — the sorting
    sessions, rank-group moves with undo and redo, local reordering, ties and
    rank rules.
  - `workspace`, `topology` — what the drag, 1v1, slider and result views
    show of a task, and putting rank groups back when a structural change is
    undone.
  - `sort_task`, `dataset`, `media`, `project`, `history`, `result`,
    `scoring`, `error` — task and dataset rules, image matching and previews,
    project checks, snapshots and autosave, integrity checks and export
    formats.
- `tests/` — tests that run the compiled library.
- `app/` — the unverified shell: SQLite storage, files, serde, clocks and the
  floating-point scoring.

Calls into `csv`, `uuid`, `chrono`, `base64`, `serde_json` and a few `std` functions go
through small trusted wrappers in `src/`, each documented with what its
contract claims.
