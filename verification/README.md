# aufgaben

Verified solutions to three puzzles, written in Verus:

- **Robot tours** (`trees`, `spanning`, `traversal`, `tours`, `bignat`): Prim's spanning
  tree over planted trees, a depth-first order through it, charging-station places,
  and 2-opt improvement of closed tours with square-root sums compared exactly.
- **Deliveries** (`delivery`, `streets`, `plan`, `plan_laws`, `checks`, `dot`): a street network
  kept as a `petgraph` graph, shortest distances from the start and every factory,
  a backward and a forward pass over the production steps, the main route with
  its backup detours, a Graphviz drawing of the plan, and the laws of the plan,
  for tasks that list no factory number in two steps (its total is the least over
  secured chains and is the length of the main route; its detours reach the goal;
  a later time limit keeps a plan possible and its total no larger).
- **Stick figures** (`grid`, `figures`, `blocks`, `bc_tree`, `centers`, `matching`,
  `mirror`, `acyclic`, `transform`): drawings read into graphs, split into blocks at
  articulation points, and compared as block-cut trees rooted at their centers under
  mirroring; on a tree without a cycle the subtree search always answers.

`text`, `words` and `input` read and write the text formats. `app/` holds the
command-line program: file and console I/O, timing and memory use, and the route
building of the robot tours that decides on floating-point lengths.
