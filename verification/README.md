# lau-consciousness-bridge

A graph of typed, weighted bridges between consciousnesses (agents, humans,
systems, tutors, pets, collectives), built and reinforced by play, with its
behaviour stated in contracts and proved with Verus.

Strengths, joy scores and densities are fixed-point numbers in billionths:
`STRENGTH_SCALE` (1 000 000 000) stands for 1.0.

Layout:

- `src/identity.rs` — identifiers, kinds, the byte order of text, ordered
  pairs (`BridgeKey`), decimal text.
- `src/bridge.rs` — a bridge and its strength arithmetic.
- `src/registry.rs` — the registry of consciousnesses and their kinds.
- `src/network.rs` — the network: lookup, building, interaction, density,
  counts, rebuilding from parts.
- `src/graph.rs` — walks, reachability and distances over the bridges.
- `src/search.rs` — clusters (connected components) and shortest paths.
- `src/play.rs` — play events and the play engine.
- `src/laws.rs` — laws that relate several functions.
- `app/lib.rs` — serde forms of the types, converted both ways.
