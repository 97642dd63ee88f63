# moonshell

The core of Moonshell, a horde-scale tower-defense engine whose content is data: mods
are YAML files of races, weapons, upgrades and maps.

- `src/` — the verified library (Verus):
  - `content` — the content model (ids unique per folder), lookups by id, and the
    cross-reference rules a mod must satisfy (`validate_content`: `Ok` exactly when no rule is broken, else the first
    broken rule).
  - `graph` — reachability in a requirement graph (used to refuse self-requiring upgrades).
  - `flow` — flow-field routing on a cell grid: breadth-first distances to the base, the
    step each cell takes, and the laws that the field is unique and that its steps descend.
  - `astar` — single-query A* on the probe grid, proved to return the flow field's distance.
  - `queue` — the binary min-heap that serves as A*'s open list.
  - `battle` — the spawner that follows a wave schedule and budget, leaks and the outcome.
  - `hub` — game phases and the hub economy (weapon unlocks, upgrade ranks, card states,
    listing orders).
  - `spike` — the performance probe's modes, obstacle sector and random query stream.
- `tests/` — tests of the library on concrete values.
- `app/` — the program around it: YAML loading, the Bevy app (simulation systems,
  instanced renderer) and the performance probe (`moonshell spike <mode> ...`).
