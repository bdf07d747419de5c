# oxvoid

Agent-native WASM apps with no framework: a fine-grained signal runtime,
thin DOM helpers, a raw-HTTP Convex client, and a set of demo apps.

## Layout

- `src/` — the verified library (Verus). Every function carries a
  contract; the properties that span several calls are stated as `law_*`
  proof functions.
  - `signals` — the reactive runtime as an explicit state machine:
    subscriptions, notification, batching and the queue of deferred
    effects.
  - `tetris` — the falling-blocks game: moves, rotation with wall kicks,
    locking, line clears, scoring, speed, keys and the cells to draw.
  - `graphcalc` — the expression grammar and its recursive-descent parser.
  - `doom` — the raycaster's map, wall colours, movement keys and minimap.
  - `mesh` — triangle index lists of the 3D scene's meshes.
  - `convex` — request and socket addresses, HTTP errors.
  - `rng`, `text`, `landing` — the xorshift generator, string comparison,
    the theme switch.
- `tests/` — executable tests of the library.
- `app/` — the browser side: the thread-local runtime that runs effect
  bodies, DOM helpers, the async Convex calls, and the demo apps' drawing,
  WebGL and floating-point simulation, all calling into the library.
