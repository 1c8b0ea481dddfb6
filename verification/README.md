# HCAD

The core of a parametric solid modeller: sketches become features, features replay into a solid, and
the solid is drawn, measured and exported.

`src/` is a verified library. It holds everything that is decided over whole numbers, indices,
booleans and text, and each function states in its contract what it returns:

- documents: `document`, `assembly`
- meshes: `mesh` (edges, winding), `topo` (flat faces and their loops), `rims`, `trails`,
  `union_find`, `linking`, `first_seen`, `counting`
- bevels and fillets: `surgery`, `patches`, `ears`, `blend`
- bodies by their triangles: `patterns`, `solids`, `bodies`, `gears`, `profile`, `rings`
- booleans: `bsp` (clipping by planes), `booleans` (welding, fallbacks, edges between faces)
- voxels: `raster` (triangles into voxels), `voxel` (sealing, flooding, distances), `nets` (surface
  nets), `balance` (why they close)
- edges to draw: `feature_edges`, `cleanup`, `chains`, `views`, `sheet`
- text and artwork: `text`, `fonts`, `outlines`, `icons`
- files: `exchange`

Where an algorithm needs a measurement, the caller supplies it: as a mark per item, as a whole number
in a unit of the caller's choice, or as a function that the contract speaks of. Numbers that are only
carried are held by their bit patterns. Laws that relate several functions are public proof functions
beside them.

`app/` measures and places: floating-point geometry, the exact kernel, files, fonts on disk, painting,
and the serde form of documents. `tests/` runs the library on concrete parts.
