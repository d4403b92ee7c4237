# query_solver

Query planning for GraphQL federation: which subgraph resolvers fetch which fields. The
solution space is turned into a Steiner graph by climbing from each terminal field towards the
root (collapsing single-parent chains and collecting requirements on the way); the operation's
fields become terminals of a directed Steiner tree problem over the possible
resolution paths; GreedyFLAC grows the tree, while a fixed point keeps the weights of edges that
need extra fields (requirements) in line with the tree; the solved query graph is then
post-processed so that mutation root fields run in order and no query partition waits on
itself.

Layout:

- `src/`: the verified library (Verus).
  - `space_graph`, `steiner_input`, `steiner_build`: the solution space, the climb that builds
    the Steiner graph from it, and the driver that climbs from every terminal;
  - `requirements_input`: grouping the requirements collected during the climb;
  - `steiner_tree`, `flac`: the tree and the flow simulation's decisions;
  - `flac_run`: what holds all through a run of the simulation, and why the tree it grows
    stays a tree that reaches every connected terminal;
  - `requirements`: requirements and the weight fixed point;
  - `mutation_order`, `partition_cycles`: post-processing of the solved query graph;
  - `query`, `solution`, `dedup`, `dot_graph`, `error`: the graph's nodes, edges, identifiers,
    Graphviz attributes and errors;
  - `bitset`, `graph`, `query_graph`: how the library sees `fixedbitset` and `petgraph` values.
- `app/`: the run loops, which keep the floating-point clock of the flow simulation and call
  the library for every decision, and the error type with its messages.
- `tests/`: building the Steiner graph, the Steiner tree cases, the requirement fixed point, post-processing and the
  helpers.
