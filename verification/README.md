# kovia

A verified library for a worldbuilding workbench: the knowledge vault and its
search, the research workspace state, and the atlas world model (cube-face
tile addresses, categorical layers and their masks, settlement features,
undo/redo history and the edit handlers that record into it, invalidation
tracking, tile residency, the decisions of the editor panels, and the checks a
saved project must pass). Verus proves the whole of `src/`
against the contracts stated there.

- `src/` — the library. Floating-point values (heights, brush sizes, face
  coordinates) appear there only as IEEE-754 bit patterns; the arithmetic on
  them lives in `app/`.
- `tests/` — tests of the library on concrete values.
- `app/` — a headless driver: reads the vault from disk, runs searches,
  sculpts and paints a demo world, and saves and checks project files (JSON).

Verify with `verus src/lib.rs --crate-type lib`.
