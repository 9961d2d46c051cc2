# geometrid

2d grids, tiles and vertices, for grids whose size is a compile time constant, together with
shapes, polyominos, lines of sight and sets and maps of tiles. Going north decreases `y`;
going east increases `x`.

The library in `src/` is written in Verus: every function carries a `requires` / `ensures`
contract that the verifier proves, over mathematical models of the types (coordinates as
integers, maps as sequences, tile sets as sets of positions).

## Layout

- `src/vector.rs`, `src/corner.rs`, `src/flip_axes.rs`, `src/quarter_turns.rs`, `src/side.rs`:
  directions, corners, flips and rotations, with the algebra of rotations.
- `src/tile.rs`, `src/vertex.rs`, `src/dynamic_tile.rs`, `src/dynamic_vertex.rs`: tiles and
  vertices of fixed size and unbounded grids.
- `src/point_absolute.rs`, `src/point_relative.rs`: points of grids indexed by `u16`, and offsets.
- `src/tile_map.rs`: a value per tile, with flips and rotations of the whole grid.
- `src/tile_set.rs`, `src/tile_set256.rs`: sets of tiles stored as the bits of a word; the
  256 tile sets use `ethnum` for their 256 bit arithmetic (`src/wide.rs`).
- `src/bits.rs`, `src/bits128.rs`, `src/wide.rs`: the bits of 64, 128 and 256 bit words, read
  as sets of positions.
- `src/line_of_sight.rs`, `src/line_finder.rs`: the tiles on a line between two tiles, and runs
  of matching tiles in a map.
- `src/shape.rs`, `src/rectangle.rs`, `src/polyomino.rs`, `src/outline.rs`,
  `src/rectangles.rs`: shapes made of tiles, their outlines and their division into
  rectangles.
- `src/text.rs`, `src/grid_math.rs`: text output and arithmetic facts shared by the modules.
- `app/lib.rs`: what needs floating point numbers (centres of tiles, scales, distances) and the
  `serde` and `strum` forms of the library's types.
- `tests/`: tests of the library.
