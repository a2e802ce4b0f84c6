# grand pattern fleet

A fleet of venues joined in a small-world graph, visited by agents each tick.

`src/` is the verified library:

- `rng` — a seedable xorshift64 generator whose state is never zero.
- `graph` — `CellGraph`: adjacency lists in a `HashMap`, adding and removing
  undirected edges, the connectivity search, the best-connected alive node,
  cutting a node loose, and the small-world construction.
- `reach` — walks through alive nodes and the facts behind the search.
- `topology` — well-formed graphs (symmetric, no self-loops, no repeats) and
  what every edit keeps and undoes; the ring lattice and its rewiring.
- `venue` — a venue's countable state: events and its bounded personality.
- `fleet` — scenario schedules, newcomer links, the visits of a tick and the
  per-tick census.

`app/main.rs` runs the five scenarios. Vibes, the surprise predictor and the
reports are floating point and stay there; the venues' discrete state lives in
the library's `VenueState`, and every change to it and to the graph is made by
a library call (`apply_disruption`, `record_event`, `plan_visits`).
