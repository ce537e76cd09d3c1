# asw

Maritime routing over a graph of H3 cells, as a library whose behaviour is
proved with Verus, and a program around it.

## The library (`src/`)

Measurements that need floating point (great-circle distances, tests of polygons,
centres of cells) come in as closures; everything decided from them is verified.
Distances are whole micro-nautical miles, coordinates whole nanodegrees.

| Part | Modules |
|------|---------|
| Graph | `varint`, `edge_list`, `graph`, `container`, `components`, `prune`, `survey` |
| Routing | `astar_pool`, `heap`, `routing`, `board`, `search`, `range_min`, `smoothing`, `route` |
| Building | `cells`, `cell_list`, `edges`, `assembly`, `build_graph`, `coastline`, `shapefile`, `canal_water`, `water_text`, `passages` |
| Geometry | `bounds`, `seam`, `boxtree`, `geo_index`, `h3` |
| Serving | `state`, `api` |
| Cloud builds | `config`, `hetzner`, `ssh`, `pipeline`, `source` |
| Command line | `cli`, `srcdir`, `download`, `bench`, `report`, `export` |
| Helpers | `text`, `notation`, `figures`, `clock`, `path`, `sort`, `oracle` |

What comes from other crates stands behind a few small functions, each with a
comment that says what is taken for granted: cells of the grid (`h3`), R-trees of
boxes (`boxtree`), compression (`container`), comparison in constant time
(`api`), white space and small letters (`text`), the text of map extracts
(`water_text`).

## The program (`app/`)

Reads and writes files, talks HTTP and SSH, measures in floating point, and
serves the API. `asw build`, `asw serve`, `asw geojson`, `asw bench`,
`asw cloud`, `asw healthcheck`, `asw survey`.
