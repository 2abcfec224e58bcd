# mazegen

Random maze maps, verified with Verus.

A map of `w` by `h` rooms lives on a grid of `2w-1` by `2h-1` cells: rooms
have two even coordinates, walls one odd coordinate, pillars two. Generation
blocks some rooms, grows a maze from a start room by opening accessible walls
at random until enough of the grid is filled, places an entrance and an exit,
opens loops, removes small islands of shut cells and prunes tiny dead ends.

Layout:

- `src/grid.rs`: the grid of cells (`Cells`), a `HashMap` keyed by position.
- `src/walls.rs`: repainting walls, listing and opening accessible walls.
- `src/completion.rs`: when growth is done.
- `src/region.rs`: flood fill of shut cells, with its proof of exactness.
- `src/islands.rs`: islands of shut cells and their removal.
- `src/phases.rs`, `src/deadends.rs`: blocking rooms, clearing the start area,
  loops, dead ends.
- `src/generate.rs`: growth, the entrance and exit, and `generate_map`.
- `src/render.rs`: drawing a map as text.
- `src/laws.rs`: properties that relate the operations.
- `src/rng.rs`: the random numbers, from the `fastrand` crate.
- `app/main.rs`: the program that seeds from the clock and prints a map.
