# geodatafusion_parquet

Spatial pruning of Parquet scans, verified with Verus.

A filter `st_intersects(<polygon text>, <column>) IS TRUE` gives the bounding rectangle of
the polygon. The library decides from it what of a file has to be read:

- `predicate` finds such filters and their bounds.
- `row_group` skips row groups whose stored bounding box misses the bounds.
- `geometry` finds the bounds of the geometries in a column, which are stored in well-known
  binary.
- `page_index` and `page_table` index the bounds of a file's pages and select the rows of the
  pages that a query needs.
- `ordinate`, `rect`, `page`, `selection` and `metadata` hold the values that these rules work
  on. Coordinates are integers that order as the binary64 numbers do.
- `outside` holds every call into another crate, with the contract that is believed of it.

The properties of the library as a whole are the public proof functions whose names begin
with `law_`.

`app/` holds DataFusion table providers around the library: reading files, listing tables and
the conversions between DataFusion's and Parquet's values and the library's. `tests/` runs the
library with the real crates.
