# educational_missile_physics

A small missile-physics sandbox built on Bevy, whose terrain bookkeeping is a
library verified with Verus.

- `src/` — the verified library:
  - `coord_map` — a hash map keyed by chunk coordinates (packed into one `u64`);
  - `streaming` — which terrain chunks to request around the viewer, which to
    record as loaded, and which to drop once the viewer moves on;
  - `height_cache` — the per-chunk collision heightfield and its cell lookup;
  - `contour` — marching-squares topology of contour lines;
  - `grid` — row-major vertex numbering, triangle lists and sample lookups of
    chunk meshes;
  - `debug_axes` — the overlay toggle.
- `app/` — the Bevy application: rendering, input, noise sampling, geodesy and
  ballistics, all floating point, calling the library for the decisions above.
- `tests/` — executable tests of the library.
