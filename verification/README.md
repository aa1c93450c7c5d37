# ironphysics

A 2D rigid-body physics engine whose bookkeeping is verified with Verus.

`src/` is the verified library. It holds everything in the engine that is
not floating-point arithmetic, each function with a contract that Verus
proves:

- `handle`, `arena`: packed body/collider/joint handles and the
  generational arena that turns stale handles away, and tells a storage
  kept in step with it by slot whether to append or overwrite;
- `filter`, `step`: collision filtering and the decisions of one world step
  (which broadphase pairs go on, which bodies a new contact wakes, the step
  counters, which islands fall asleep);
- `bvh`: the dynamic bounding-volume tree, generic over the box type, with
  its shape invariant (parent and child links, free list, leaf map, each
  internal box merged from its children's) proved for every insert, remove
  and update; pair collection reports each overlapping pair once, and every
  pair that the overlap test surely accepts, when that test keeps accepting
  merged boxes, and no other pair when its answers are sure;
- `pool`, `shape`: the contact pool keyed by collider pair, the matching of
  contact features across frames, and the routing of shape pairs to a
  contact algorithm;
- `island_manager`, `island`, `sleeping`, `position_solver`: island
  construction as connected components of the constraint graph (in the
  order of a breadth-first walk that a spec function spells out), waking,
  and the colouring of contacts for position correction;
- `stats`, `threads`: step statistics, the step timer and the size of the
  worker pool.

Public proof functions named `lemma_*` state the laws that relate several
operations (reading back a write, what a removal undoes, symmetry of
filters and routing, and so on).

`app/` is the rest of the engine in ordinary Rust: vector maths, shapes,
contact generation, the impulse and position solvers, joints, the `World`
type that runs a step, and a `macroquad` window. It calls the library for
every decision listed above.

`tests/` exercises the library on concrete values.
