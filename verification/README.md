# gridbot

Bots that walk on a wall grid: the grid itself, compact paths, a path finder
that answers requests after a fixed delay, and the decisions a bot makes
about where to go. The library under `src/` is verified with Verus; `app/`
holds the floating-point side (world coordinates, ray casts, bot physics and
the game loop), which calls into it.

- `src/vec2.rs`: integer grid vectors.
- `src/card_dir.rs`: the eight step directions, their codes and offsets.
- `src/grid.rs`: the wall grid over a bit vector, reading a map text,
  drawing it, visiting its cells, and finding empty cells.
- `src/short_path.rs`: paths of up to 42 steps packed into a `u128`, and
  walking them cell by cell.
- `src/pathfind.rs`: A* search on a grid whose border is walled, and the
  delayed request queue, with its laws: no request is lost, duplicated or
  reordered; a call never answers a request that it brings; whatever the
  load, every answer comes back from the call made exactly `DELAY` calls
  after the one that brought its request; and while no call brings more
  than `MIN_PROCESSED` requests, each answer holds the search on the grid
  given to that call.
- `src/game.rs`: path requests and answers for the bots, and where a bot
  heads next.
