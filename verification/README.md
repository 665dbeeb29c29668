# rust_components

Bookkeeping for singleton components that depend on one another, verified with Verus.

- `src/graph.rs`: the mathematical model: dependency graphs, paths, transitive
  dependencies, acyclicity, destruction rank, and the lemmas about them.
- `src/component.rs`: component identity (`ComponentInfo`, keyed by an integer type key)
  and `ComponentError`.
- `src/resolution.rs`: `ComponentDAG` (records dependencies, refuses cycles, computes
  transitive dependencies), `Inner` (wakers, created components, graph, and a ghost log
  of the wakes), `ResolutionContext` (the state of a build), `ComponentResolver` and
  `ResolveFuture` (one poll of a request for a component).
- `src/store.rs`: `DAGDestructor` (stable ordering of destructors so that a component is
  destroyed before its dependencies), `ComponentStore`, `ComponentStoreBuilder`, and
  `StoreBuild`, the step function of building a store.
- `app/lib.rs`: the async front: component traits, type keys, tokio tasks that create the
  components, the lock that they share the `StoreBuild` behind, the `Future` through which
  a component waits for another.
