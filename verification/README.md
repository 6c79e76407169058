# polyblade

A verified model of polyhedra as graphs, and of the Conway operations on them.

A shape is a distance matrix over vertex ids together with its faces, each face a cycle of
vertex ids with a stable face id. The library proves what each operation does to
both: shortest path lengths after every change, the faces rebuilt by truncation, expansion,
chamfering, kis, vertex splitting and edge contraction, the face search that rediscovers faces
from the graph alone, and the bookkeeping that keeps a face's color across operations.

Layout:

- `src/polyhedron/shape/distance/`: the distance matrix, breadth-first shortest paths,
  depth-first search, connectivity, contraction and vertex splitting.
- `src/polyhedron/shape/cycles/`: faces, their canonical order, contraction of faces, and the
  chordless-cycle face search.
- `src/polyhedron/shape/`: the shape and its Conway operations, preset prisms, edge-keyed maps
  and sets, and the face adjacency snapshot.
- `src/polyhedron/face.rs`, `palette.rs`: face types and the color and palette allocation that
  carries colors across operations.
- `src/polyhedron/transaction.rs`: the queue of pending work on a polyhedron (contractions that
  wait for their springs, Conway operations, renames, pauses), one verified step at a time, and
  the whole-polyhedron truncation, ambo and expansion it runs.
- `src/polyhedron/name.rs`: the Conway name after each operation.
- `src/polyhedron/shape/schlegel.rs`: the face types a Schlegel diagram can look through, with
  their counts and labels.
- `app/main.rs`: a console front end that prints a preset's graph and faces, and runs an ambo
  through the queue.
- `tests/`: the test suite.
