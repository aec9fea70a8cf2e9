# openmind_mirror

Self-reflection and coherence checking for agent muscle memory, verified with Verus.

- `src/` — the verified library:
  - `lib.rs`: snapshots (`MuscleMemory`, `ChordShape`), decisions (`Trit`), issues, and key lookup.
  - `coherence.rs`: the five consistency checks and their report.
  - `calibration.rs`: decision recommendations from invocation and error counts (exact fractions).
  - `mirror.rs`: the diff between two snapshots.
  - `proprioceptor.rs`: the flex tracker and the real-time alert monitor.
  - `spectral.rs`: decision vectors (sorted by name) and their exact cosine terms across repos.
  - `float_bits.rs`: binary64 readings held by bit pattern, with IEEE-754 `<`.
  - `names.rs`, `index.rs`: the order of names, and an index of a snapshot's entries
    sorted by name for lookups by binary search.
  - `table.rs`, `text.rs`: name/count tables and decimal rendering.
- `app/` — JSON loading and saving through serde, and the floating-point texts and
  averages (calibration reasons, the confidence-drop alert text, spectral report).
- `tests/` — executable tests of the library.
