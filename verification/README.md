# plato_music_sync

Music cognition patterns for keeping rooms that tick at different rates in sync.

- `src/` — the verified library (Verus):
  - `cadence` — the cadence detector, specified as a state machine over `DetectorView`
    (perfect, deceptive and half cadences; pending alarms; per-type statistics), with its
    invariant and laws;
  - `polyrhythm` — greatest common divisor and least common multiple, with Bezout's
    identity and the divisor/multiple laws;
  - `counterpoint` — motion between two rooms from their directions of change, and the
    tally of motions over a history;
  - `history` — bounded histories that keep the most recent items;
  - `room_map` — values keyed by room name, viewed as a map. Room tables are kept as a
    name list beside a value list rather than in a `HashMap<String, _>`: vstd's
    `HashMap` contracts hold only for key types known to obey its key model, `String` is
    not among them, and declaring it so would be an unproved assumption. This table's
    insert, remove and lookup contracts are exact over its map view;
  - `tempo` — tempo markings.
- `app/` — the parts that compute on floating-point measurements (scheduler, groove
  tracker, counterpoint analyzer, tempo map), built on the library.
- `tests/` — tests of the library.
