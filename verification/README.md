# random_graphs

Random graph generators (random regular, G(n, p), G(n, m), stochastic block
model, random geometric, Barabási–Albert preferential attachment, random
bipartite and hyperbolic random graphs) whose combinatorial core is verified
with Verus.

## Layout

- `src/` — the verified library. Nodes are indices `0..n`, edges are pairs of
  indices, randomness comes from a `rand_pcg::Pcg64` generator.
  - `regular.rs`: rounds of stub matching for random regular graphs; a
    finished attempt is a simple graph in which every node has the asked
    degree.
  - `skipwalk.rs`: the skipping walk of the G(n, p) generator; each draw moves
    the walk `skip + 1` pairs ahead, so no pair is produced twice.
  - `complete.rs`, `pairs.rs`: the complete graph and cursors over the node
    pairs that a generator considers, in lexicographic order.
  - `gnm.rs`: rejection sampling of distinct pairs for G(n, m).
  - `blocks.rs`: block membership of the stochastic block model.
  - `attachment.rs`: the degree-weighted pool of preferential attachment.
  - `checks.rs`: the input checks of the generators.
  - `degrees.rs`: degrees, counts and the handshake lemma.
  - `rng.rs`, `collections.rs`, `targets.rs`: the trusted boundary to `rand`,
    `rand_pcg`, `rand_distr`, `indexmap` and `hashbrown`.
- `app/` — the generators over `petgraph` graphs with their usual signatures:
  floating-point decisions, loops that repeat random draws until they
  succeed, and graph construction.
- `tests/` — the generators' scenarios and concrete cases of the library.
