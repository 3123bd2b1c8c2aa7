# street_engine

A street network generator. The library in `src/` holds the parts whose rules
can be stated and proved with Verus:

- `base::container::undirected` and `container::undirected`: undirected graphs
  kept in ordered and in hashed maps; edges are symmetric, adding an edge and
  removing it again gives back the graph.
- `base::container::path_network`: nodes with identifiers and paths between
  them with handles and attributes; building a network from lists of nodes
  and paths, and rebuilding it with dense identifiers, keeps its paths.
- `model`: the road network that the generator grows, and what applying a
  chosen candidate (new node, existing node, or a branch that splits a
  connection) does to it.
- `base`, `system`, `traits`: identifier generation, stages and small value
  types.

`app/` holds what works on floating-point geometry, bezier curves, spatial
indexes (`rstar`) and random numbers (`rand`), built on the verified library.
