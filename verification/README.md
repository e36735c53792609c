# destr

The integer core of a small Bevy 3D scene toolkit (destructible brick wall,
crash targets, procedural shading), verified with Verus, plus the Bevy
program that renders it.

- `src/` — the verified library (crate `destr`):
  - `wall`: the wall's brick table (`WallData`), its split into chunks,
    the walk orders used to build chunk meshes, punch handling, the
    cross-section text, and point → brick lookup from coordinate floors.
  - `tex`, `stone`: the two deterministic integer hashes and the exact
    integer cut-offs that stand for the fraction tests made on them.
  - `elements`: palette shade and texture-mirroring choices per piece.
  - `targets`: flat brick-wall and windshield grids.
  - `demo`: the unattended demo's punch schedule and screenshot step.
  - `grove`, `mesh`: root-stone counts; index rebasing for mesh merging.
- `tests/` — tests of the library on concrete values.
- `app/` — the Bevy program: meshes, materials, textures, input, physics
  of flying debris, and the two wall cases (`destructible_wall`,
  `classic_wall`).
