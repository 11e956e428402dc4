# attofab_core (verified core)

The discrete core of an education-first semiconductor fabrication
simulator, written in Verus: every function in `src/` carries a contract
that Verus proves.

- `src/materials.rs`: materials, ambients, crystal orientations, dopants
  (conduction type, names and name lookup).
- `src/grid2d.rs`: the 2D cross-section voxel grid (`Wafer2d`), its row-major
  layout, photoresist spin-coating and the silicon an oxidation consumes;
  the grid lemmas shared by the other modules.
- `src/lithography.rs`: binary-mask exposure and development.
- `src/etch.rs`: anisotropic and isotropic cellular-automaton etch and
  conformal deposition, with their laws (etch only removes silicon/oxide,
  anisotropic etch has no lateral spread, deposition only fills void).
- `src/grid3d.rs`: the 3D voxel mesh (`Wafer3d`): spin-coating, anisotropic
  etch through a lateral mask, surface heightmap, oxidation's consumed
  silicon, and the laws linking them.
- `src/gds.rs`: GDSII stream reader (record framing, BOUNDARY polygons per
  structure, UNITS real split into its fields), with the write-then-read law.
- `src/recipe.rs`: recipe column masks (explicit list or range shorthand).

`app/` holds what is floating point (Deal-Grove oxidation, Gaussian and
Pearson-IV implant profiles, Fick's-law diffusion, the 1D column, dopant
concentrations and oxide thickness of the 2D/3D wafers, GDSII real values
and polygon rasterization) and the `recipe_runner` program (JSON recipe on
stdin, wafer JSON on stdout), built on the verified library.
