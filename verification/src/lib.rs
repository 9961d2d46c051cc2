use vstd::prelude::*;

pub mod corner;
pub mod dynamic_tile;
pub mod dynamic_vertex;
pub mod flip_axes;
pub mod grid_math;
pub mod quarter_turns;
pub mod side;
pub mod text;
pub mod tile;
pub mod vector;
pub mod vertex;
pub mod tile_map;
pub mod bits;
pub mod bits128;
pub mod wide;
pub mod tile_set;
pub mod tile_set256;
pub mod shape;
pub mod rectangle;
pub mod line_of_sight;
pub mod line_finder;
pub mod polyomino;
pub mod outline;
pub mod rectangles;
pub mod point_relative;
pub mod point_absolute;
