# maze_runner

The logic of a small authoritative multiplayer maze game, verified with Verus.

- `src/maze.rs`: difficulties, tiles and mazes; `validate` with the exact
  rules a playable maze must meet; `generate` (bounded retries over derived
  seeds, then a fallback seed), stated exactly over the carved layouts, and
  `empty`; the laws that a valid maze is one connected region, that a logged
  seed reproduces its level and that more retries keep a maze already found.
- `src/rng.rs`: the seeded `rand` generator, with its seed and the number of
  words drawn kept as ghost values, and the names of the words it yields.
- `src/carving.rs`: seeded carving (depth-first passages that open every
  odd cell, extra loops, the farthest objective, greedy spawn placement with
  path spacing and no line of fire), each stage stated as a function of the
  seed's stream.
- `src/paths.rs`: the walk model of a floor plan, breadth-first distances
  proved shortest, the farthest tile, and lemmas on walks.
- `src/levels.rs`: the fixed 16 x 16 levels of the small legacy server.
- `src/session.rs`: player names, join admission, the client's join
  handshake decisions and spawn hand-out.
- `src/sync.rs`: id reconciliation between a client's scene and a snapshot.
- `app/`: the UDP server, JSON messages (serde copies of the library types),
  the floating-point world physics, the client's join handshake, and the
  legacy postcard server.
