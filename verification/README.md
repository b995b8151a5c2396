# porecrusher

Porosimetry of periodic crystal structures: a lattice of cubelets is laid over the
unit cell, each cubelet is classified by what fits there (nothing, any probe, a helium
probe, a nitrogen probe), and the open cubelets are grouped into clusters to find the
directions in which the pore network spans the cell, the pore limiting diameter, the
pore size distribution, the surface area and the pore volumes.

## Layout

- `src/` — the library, verified with Verus.
  - `lattice.rs` — cubelets, the lattice and its storage order, random draws of open
    cubelets, the grids of cubelets open to each probe.
  - `lattice/cluster.rs` — cluster labels, ordered by their numbers.
  - `lattice/grid.rs` — the cluster grid: periodic cluster labelling (`percolate`),
    cluster merging, and the spanning test (`span`).
  - `lattice/index.rs`, `lattice/paths.rs`, `lattice/percolation.rs` — the arithmetic
    of cell positions, walks through open cells, and the invariants of the labelling.
  - `atoms.rs` — reading XYZ files and the force-field file into records.
  - `text.rs` — lines, whitespace-separated words and decimal numbers.
  - `linalg.rs` — three-component vectors and column-major matrices.
  - `utils/io.rs` — progress messages and the receiving end of their channel.
- `app/` — the program: command line, files, settings, floating-point geometry and
  energies, threads and progress bars, built on the library.
- `tests/` — tests of the library.
