# package_resolver

Resolution of package dependencies, verified with Verus.

A resolution starts from top-level packages and finds every package that they need, by asking a
registry for the dependencies that the packages declare. It takes the first package of each reply,
does not backtrack, and checks all version requirements at the end.

- `src/` is the verified library. `resolver::resolve` begins a resolution and stops whenever the
  registry has to be asked; `Pending::resume` goes on with the reply. `exploration` is the
  mathematical model that the contracts speak of, and `laws` states what holds of every resolution.
  The graph is a `petgraph` one, and `semver` decides which versions satisfy a requirement.
- `app/` puts the queries to an asynchronous registry.
- `tests/` runs resolutions against a registry held in memory.
