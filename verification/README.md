# fivem_gps

Routing over the road network of a FiveM scene file.

- `src/` is the verified library (Verus):
  - `scene` — the scene's object model (positions carried as IEEE-754 bit patterns);
  - `strmap` — a string-keyed map that keeps its keys in insertion order;
  - `network` — vehicle nodes keyed by guid, and the links that refer to each node;
  - `search` — A* search over a numbered graph (the `pathfinding` crate's `astar`);
  - `route` — successors, the search graph of a network, reachability checks, `pathfind`;
  - `display` — the marker colour of a route node.
- `app/` is the bevy program around it: reading `paths.xml` with quick-xml/serde,
  floating-point distances, the nearest node to the cursor, drawing, and Lua export.
- `tests/` runs the library on small networks.
