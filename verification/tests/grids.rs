use geometrid::flip_axes::FlipAxes;
use geometrid::quarter_turns::QuarterTurns;
use geometrid::tile::Tile;
use geometrid::tile_map::TileMap;

fn index_grid<const W: u8, const H: u8, const SIZE: usize>() -> TileMap<usize, W, H, SIZE> {
    TileMap::from_fn(|x: Tile<W, H>| -> usize { x.into() })
}

fn joined(values: &[usize]) -> String {
    values.iter().map(|x| x.to_string()).collect::<Vec<_>>().join("|")
}

#[test]
fn test_x_and_y() {
    for x in 0..4 {
        for y in 0..4 {
            let tile = Tile::<4, 4>::try_new(x, y).unwrap();
            let (x1, y1) = (tile.x(), tile.y());

            assert_eq!((x, y), (x1, y1))
        }
    }
}

#[test]
fn size_test() {
    let grid: TileMap<usize, 3, 3, 10> = TileMap::default();
    assert_eq!(grid.into_inner(), [0; 10]);
}

#[test]
fn grid_basic_tests() {
    let mut grid: TileMap<usize, 3, 3, 9> = TileMap::default();

    for (i, m) in grid.iter_mut().iter_mut().enumerate() {
        *m = i;
    }

    for i in 0..9 {
        assert_eq!(grid[Tile::<3, 3>::try_from_usize(i).unwrap()], i)
    }

    let str = grid.to_string();
    assert_eq!(str, "0|1|2\n3|4|5\n6|7|8");

    let s_flat = joined(&grid.clone().into_inner());
    assert_eq!(s_flat, "0|1|2|3|4|5|6|7|8");
}

#[test]
fn tile_grid_test_flip_vertical() {
    let mut grid: TileMap<usize, 3, 3, 9> = index_grid::<3, 3, 9>();

    assert_eq!(grid.to_string(), "0|1|2\n3|4|5\n6|7|8");
    grid.flip(FlipAxes::Vertical);
    assert_eq!(grid.to_string(), "6|7|8\n3|4|5\n0|1|2");
}

#[test]
fn test_flip_horizontal() {
    let mut grid: TileMap<usize, 3, 3, 9> = index_grid::<3, 3, 9>();

    assert_eq!(grid.to_string(), "0|1|2\n3|4|5\n6|7|8");
    grid.flip(FlipAxes::Horizontal);
    assert_eq!(grid.to_string(), "2|1|0\n5|4|3\n8|7|6");
}

#[test]
fn rotate_clockwise_3() {
    let mut grid: TileMap<usize, 3, 3, 9> = index_grid::<3, 3, 9>();

    assert_eq!(grid.to_string(), "0|1|2\n3|4|5\n6|7|8");
    grid.rotate(QuarterTurns::One);
    assert_eq!(grid.to_string(), "6|3|0\n7|4|1\n8|5|2");
    grid.rotate(QuarterTurns::One);
    assert_eq!(grid.to_string(), "8|7|6\n5|4|3\n2|1|0");
    grid.rotate(QuarterTurns::One);
    assert_eq!(grid.to_string(), "2|5|8\n1|4|7\n0|3|6");
    grid.rotate(QuarterTurns::One);
    assert_eq!(grid.to_string(), "0|1|2\n3|4|5\n6|7|8");
}

#[test]
fn tile_grid_basic_tests() {
    let grid: TileMap<usize, 3, 3, 9> = index_grid::<3, 3, 9>();

    for i in 0..9 {
        assert_eq!(grid[Tile::<3, 3>::try_from_usize(i).unwrap()], i)
    }

    let str = grid.to_string();
    assert_eq!(str, "0|1|2\n3|4|5\n6|7|8");

    let s_flat = joined(&grid.clone().into_inner());
    assert_eq!(s_flat, "0|1|2|3|4|5|6|7|8");
}

#[test]
fn rotate_anticlockwise_3() {
    let mut grid: TileMap<usize, 3, 3, 9> = index_grid::<3, 3, 9>();

    assert_eq!(grid.to_string(), "0|1|2\n3|4|5\n6|7|8");
    grid.rotate(QuarterTurns::Three);
    assert_eq!(grid.to_string(), "2|5|8\n1|4|7\n0|3|6");
    grid.rotate(QuarterTurns::Three);
    assert_eq!(grid.to_string(), "8|7|6\n5|4|3\n2|1|0");
    grid.rotate(QuarterTurns::Three);
    assert_eq!(grid.to_string(), "6|3|0\n7|4|1\n8|5|2");
    grid.rotate(QuarterTurns::Three);
    assert_eq!(grid.to_string(), "0|1|2\n3|4|5\n6|7|8");
}
