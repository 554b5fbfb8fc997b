# n_particles

An n-body particle simulation: bodies attract each other by gravity, collide
elastically, and leave trails. The verified library (`src/`) holds the
simulation's discrete logic; the program around it (`app/`) holds the
floating-point physics and the macroquad/egui front end.

## Library (`src/`, verified with Verus)

- `n_body::span` — a cell's extent along one axis, its borders kept as binary
  fractions `lo / 2^shift` and `hi / 2^shift`, and its split into two halves.
- `n_body::quadtree` — a region quadtree over points of the `i64` grid:
  cells, insertion with a per-cell capacity and division into quadrants, and
  range queries that skip cells the range does not meet. The contract of
  `insert` pins the whole tree after the call: which cell keeps the point,
  when a cell divides, and that every point the cell covers is taken (when the
  capacity is not 0). `query` reports exactly the stored points its range
  reaches, in storage order.
- `n_body::octree` — the same for the octree over 3D grid points, which
  stores indices into a slice of positions. `query` is stated for any
  positions; when they are still where they were inserted it reports exactly
  the stored indices whose positions lie in the range.
- `n_body::simulate` — the body list with its trails (each trail keeps the
  newest 150 positions), building the collision octree (stated as a run of
  `insert` steps, one per index), the collision partners of a body, and the
  pairs of the pairwise collision pass.

A cell made by `Node::new(c, s)` covers `c - s/2 <= v < c + s/2` on each axis.
A cell is split on each axis at the exact middle of its extent: when the middle
falls between two numerators the scale is doubled, so halving stays exact
however odd the side and however deep the tree. (Only a cell whose borders or
width have more than about 120 significant bits is split at its middle rounded
down; such a cell is far beyond what floating-point cells could hold exactly.)
The children of a cell therefore split it exactly: every point of a cell lies
in exactly one child. The quadtree's `query` also reports points on the upper
borders of its range; the octree's `query` treats its range as half-open, like
a cell.

## Program (`app/`)

`app/main.rs` runs the 3D simulation around a fixed sun; `--panel` runs the
version with an egui control panel. Body positions are placed on the grid at
1024 cells per world unit for the octree.
