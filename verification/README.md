# ferruginous

Tools for turning AIS vessel positions into map-tile heat maps: positions are
rendered onto the cells of a slippy-map tile grid, cell visits are merged into
stays, and the error of the rendered cells against the reported positions is
measured.

The library in `src/` is written in Verus. Every function there carries a
contract that Verus proves, with one exception: `sort_visits` calls rayon's
`par_sort_by_key`, and its contract (a stable sort by cell and time) is taken
from rayon's documentation without proof. The properties that span several
functions are stated as public proof functions (`lemma_*`).

- `visits`: sorting cell visits by cell and time, and merging back-to-back
  visits of one cell into one stay.
- `error_measure`: the settings of an error measurement, the ground truth
  cells of a trajectory, taxicab errors and the merging of cell errors.
- `tile_filter`: the bounding box of a filter tile and the segments of a line
  that touch a tile.
- `tiles`: parsing `x,y,z` tile strings and scaling a tile to a finer zoom.
- `draught`: runs of equal draught readings.
- `migration`: which schema migrations are still to run.
- `sql`: the SQL statements the database is built and queried with.
- `cell`, `bounds`, `time_delta`: the small shared types.

`app/` holds what stays outside the proofs: the command line tool, the DuckDB
and PostgreSQL extensions, file and database I/O, and all floating point
geometry. It calls the library for the logic above.

`tests/` runs the library on concrete values.
