# procgen_tectonics

Deterministic plate tectonics over a spherical Voronoi mesh: crack faces and
plate partitioning, crust growth, boundary classes, material transport,
suturing and rifting, and the errors every stage reports.

## Layout

- `src/` is the verified library. It holds the integer and combinatorial
  parts of the stages, each function with a contract proved by Verus:
  - `topology`: the mesh as plain adjacency.
  - `partition`: shortest-arrival growth of plates from seeds, and the
    partition's validation.
  - `cracks`: crack walls, adoption of wall cells into faces, face merging and
    renumbering.
  - `boundaries`, `crust`, `seafloor_age`, `base_elevation`, `deformation`:
    the counting, walking and checking parts of those stages.
  - `migration`: applying a migration's moves and counting contested cells;
    which plate advances across a boundary is a speed comparison, made in
    `app/`.
  - `transport`, `material`, `orphans`: what a cell keeps when material
    arrives, what subducts, what accretes, and what every cell reads.
    A column's thickness changes by accretion and by compaction only;
    there is no flow pass that spreads a column into thinner neighbours,
    so `thickness_transfer_count` reads zero.
  - `lifecycle`, `rifting`: sutures, rifts and the compaction of plate ids.
  - `evolution_diagnostics`, the error enums and their messages.
- `app/` is ordinary Rust around the library: the mesh, noise and random
  streams, and every real-valued quantity (positions, speeds, areas,
  elevations). It hands the library plain integers and takes its answers back.
- `tests/` runs the library on small hand-built meshes.
