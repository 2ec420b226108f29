# dungeon_crawler

The logic of a top-down dungeon crawler, verified with Verus.

- `src/` is the verified library: the dungeon map (`grid`), its breadth-first consistency
  check, one round of random dungeon generation (`generate`), room layouts and their reading
  (`layout`), the breadth-first distance field that enemies follow (`distance`), the doors of a
  room under attack (`room`), the minimap (`minimap`), and the laws that relate them (`laws`).
- `app/` is the graphical side built on ggez: assets, drawing, the floating-point movement of
  the player, enemies and shots, and the retry loop around dungeon generation.
- `tests/` runs the library on concrete values.
