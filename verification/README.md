# platformer

The logic of a small tile-based platformer, verified with Verus.

- `src/` — the verified library: rectangles (`rect`), level files and tiles
  (`ground`), text helpers for the save file and level files (`text`), the
  player's physics and collisions (`player`), particle removal (`particles`),
  menu buttons and the cursor (`button`), and the menu and game state
  machines (`menu`, `game`).
- `app/` — the program around it: window, drawing, sound, input events,
  files, and the floating-point particles.
- `tests/` — tests of the library on concrete values.
