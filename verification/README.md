# ardh

Level-of-detail terrain tiles over a cube-faced planet.

- `src/quadtree.rs`: a quadtree stored breadth-first in one array, with the
  position arithmetic (child, parent, sibling place) and its round-trip laws.
- `src/ardh.rs`: the tile search tree: a breadth-first walk that splits the
  tiles a caller asks for, keeps the set of leaf tiles, preserves the tree's
  well-formedness and the breadth-first order of its queue, and spends one
  pending tile per step.
- `src/node_set.rs`: the finite set of tiles the walk keeps (discovered and
  leaf tiles), compared field by field.
- `src/skirt_grid.rs`: the integer layout of the skirted grid mesh (which plane
  vertex each grid vertex copies, and the triangle list).
- `app/lib.rs`: the Bevy side: components, the f32 geometry of tiles and the
  vertex buffers of the grid.

Everything under `src/` is verified with Verus; `tests/` runs it.
