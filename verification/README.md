# alkaidsd

Building blocks of a local search for the split delivery vehicle routing
problem, written in Verus and proved correct against their contracts.

- `src/model.rs`: the mathematical model of a solution (a pool of linked
  nodes) and of its routes, with the lemmas about linked routes.
- `src/solution.rs`, `src/route_context.rs`: the node pool and the per-route
  summaries (heads, tails, loads).
- `src/cost.rs`: route costs, and the proof that the objective counted node
  by node equals the distance travelled along the routes.
- `src/construction.rs`: the randomized insertion heuristic; its result
  serves every customer exactly its demand within the vehicle capacity.
- `src/inter_operator/`: Relocate, SwapStar, SdSwapOneOne and
  SdSwapStar, each proved to apply the move of least
  change in travelled distance when that change is negative, with laws on
  the exact objective change and on feasibility (deliveries, cover, route
  loads and capacity kept).
- `src/cache.rs`, `src/delta.rs`, `src/random.rs`, `src/utils.rs`,
  `src/variant_ops.rs`: supporting pieces.
- `tests/`: executable scenarios; `app/`: the command-line entry point.
