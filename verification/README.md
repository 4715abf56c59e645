# lbm

A two-dimensional lattice Boltzmann (D2Q9) channel-flow solver.

`src/` is a verified library holding the solver's index logic:

- `distribution`: the D2Q9 stencil (velocities, exact weights, opposites)
  and its moment identities;
- `geometry`: lattice directions and half-plane walls;
- `layout`: the column-major layout of nodes and populations;
- `streaming` and `grid`: periodic pull streaming and its index, proved to
  be a permutation;
- `lbm`: the channel's solid nodes, bounce-back index lists, streaming,
  bounce-back and the boundary values of the macroscopic fields;
- `solver`: the iteration schedule of a run.

`app/` runs the simulation on an ArrayFire device: the floating-point
equilibrium and collision, device transfers, timing, printing and a C
interface.
