# plantastic

Site-scan toolkit for landscaping: point-cloud processing, terrain and scene
export as binary glTF, annotated plan views and a solar exposure engine.

- `src/` is the verified library. It holds the integer and byte-level logic
  with its contracts: DBSCAN over precomputed neighbourhoods, voxel grouping,
  RANSAC bookkeeping, GLB framing and buffer layout, mesh compaction and zone
  extrusion topology, label placement and icon rasters, colour naming, the
  calendar and timestamp rendering behind the classification log, and the
  integer side of sun-hour integration.
- `app/` wraps it: PLY parsing, floating-point geometry (k-d tree queries,
  covariance eigenvalues, plane fitting, triangulation, rasterisation, sun
  position), file output and the serde/thiserror copies of library types.
- `tests/` exercises the library on concrete values.
