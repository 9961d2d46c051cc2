use geometrid::tile::Tile;
use geometrid::tile_set256::{TileSet256, TileSetIter256};

fn stars(bits: &[bool]) -> String {
    bits.iter().map(|x| if *x { "*" } else { "_" }).collect::<Vec<_>>().join("")
}

#[test]
fn test_possible() {
    let grid: TileSet256<16, 16, 256> = TileSet256::default();
    assert!(grid.is_empty());
    assert_eq!(grid.count(), 0);
}

#[test]
fn tile_set256_basic_tests() {
    let mut grid: TileSet256<3, 3, 9> = TileSet256::from_fn(|x: Tile<3, 3>| x.inner() % 2 == 0);

    assert_eq!(grid.to_string(), "*_*\n_*_\n*_*");

    assert_eq!(grid.count(), 5);

    for tile in Tile::<3, 3>::iter_by_row() {
        assert_eq!(grid.get_bit(&tile), tile.inner() % 2 == 0)
    }

    grid.set_bit(&Tile::center(), false);

    assert_eq!(grid.to_string(), "*_*\n___\n*_*");
    assert_eq!(grid.count(), 4);

    let inners: Vec<u8> = grid.iter_true_tiles().into_iter().map(|x| x.inner()).collect();
    assert_eq!(inners.as_slice(), &[0, 2, 6, 8]);

    assert_eq!(grid.iter().len(), 9);
    assert_eq!(grid.into_inner(), (0, 325));

    assert_eq!(grid.negate().to_string(), "_*_\n***\n_*_");
}

#[test]
fn tile_set256_test_intersect() {
    let grid_left: TileSet256<3, 3, 9> = TileSet256::from_fn(|x: Tile<3, 3>| x.x() == 1);
    let grid_right: TileSet256<3, 3, 9> = TileSet256::from_fn(|x: Tile<3, 3>| x.y() == 1);

    assert_eq!(grid_left.intersect(&grid_right).to_string(), "___\n_*_\n___")
}

#[test]
fn tile_set256_test_union() {
    let grid_left: TileSet256<3, 3, 9> = TileSet256::from_fn(|x: Tile<3, 3>| x.x() == 0);
    let grid_top: TileSet256<3, 3, 9> = TileSet256::from_fn(|x: Tile<3, 3>| x.y() == 0);

    assert_eq!(grid_left.union(&grid_top).to_string(), "***\n*__\n*__")
}

#[test]
fn tile_set256_test_symmetric_difference() {
    let grid_left: TileSet256<3, 3, 9> = TileSet256::from_fn(|x: Tile<3, 3>| x.x() == 0);
    let grid_top: TileSet256<3, 3, 9> = TileSet256::from_fn(|x: Tile<3, 3>| x.y() == 0);

    assert_eq!(
        grid_left.symmetric_difference(&grid_top).to_string(),
        "_**\n\
         *__\n\
         *__"
    )
}

#[test]
fn tile_set256_test_subset() {
    let grid_top: TileSet256<3, 3, 9> = TileSet256::from_fn(|x: Tile<3, 3>| x.y() == 0);
    let all: TileSet256<3, 3, 9> = TileSet256::all();

    assert!(grid_top.is_subset(&all));
    assert!(grid_top.is_subset(&grid_top));
    assert!(!all.is_subset(&grid_top));
}

#[test]
fn tile_set256_test_superset() {
    let grid_top: TileSet256<3, 3, 9> = TileSet256::from_fn(|x: Tile<3, 3>| x.y() == 0);
    let all: TileSet256<3, 3, 9> = TileSet256::all();

    assert!(!grid_top.is_superset(&all));
    assert!(grid_top.is_superset(&grid_top));
    assert!(all.is_superset(&grid_top));
}

#[test]
fn tile_set256_test_from_inner() {
    assert_eq!(
        TileSet256::<3, 3, 9>::from_inner((0, 3)).to_string(),
        "**_\n___\n___"
    )
}

#[test]
fn tile_set256_test_from_iter() {
    let grid = TileSet256::<4, 3, 12>::from_iter(vec![
        Tile::try_from_inner(0).unwrap(),
        Tile::try_from_inner(1).unwrap(),
    ]);
    assert_eq!(grid.to_string(), "**__\n____\n____")
}

#[test]
fn tile_set256_test_iter_reverse() {
    let grid = TileSet256::<4, 3, 12>::from_fn(|x: Tile<4, 3>| x.inner() >= 6);

    let mut bits = grid.iter();
    bits.reverse();
    assert_eq!(stars(&bits), "******______");

    let mut iter = TileSetIter256::<1>::new(grid.into_inner(), 0, 12);
    let mut reversed = vec![];
    while let Some(b) = iter.next_back() {
        reversed.push(b);
    }
    assert_eq!(stars(&reversed), "******______");
}

#[test]
fn tile_set256_test_row() {
    let grid = TileSet256::<4, 3, 12>::from_fn(|x: Tile<4, 3>| x.inner() % 3 == 1);

    assert_eq!(stars(&grid.row(0)), "_*__");
    assert_eq!(stars(&grid.row(1)), "*__*");
    assert_eq!(stars(&grid.row(2)), "__*_");
}

#[test]
fn tile_set256_test_col() {
    let grid = TileSet256::<4, 3, 12>::from_fn(|x: Tile<4, 3>| x.inner() % 2 == 1);

    assert_eq!(stars(&grid.col(0)), "_*_");
    assert_eq!(stars(&grid.col(1)), "*_*");
    assert_eq!(stars(&grid.col(2)), "_*_");
    assert_eq!(stars(&grid.col(3)), "*_*");
}

#[test]
fn tile_set256_test_enumerate() {
    let grid = TileSet256::<3, 3, 9>::from_fn(|x: Tile<3, 3>| x.inner() == 5);

    assert_eq!(
        grid.enumerate()
            .into_iter()
            .map(|(t, x)| t.inner().to_string() + if x { "*" } else { "_" })
            .collect::<Vec<_>>()
            .join(""),
        "0_1_2_3_4_5*6_7_8_"
    );
}

#[test]
fn tile_set256_test_shift() {
    let full_grid = TileSet256::<2, 3, 6>::default().negate();

    assert_eq!(full_grid.shift_north(0), full_grid);
    assert_eq!(full_grid.shift_south(0), full_grid);

    assert_eq!(full_grid.shift_north(1).to_string(), "**\n**\n__");
    assert_eq!(full_grid.shift_south(1).to_string(), "__\n**\n**");

    assert_eq!(full_grid.shift_north(2).to_string(), "**\n__\n__");
    assert_eq!(full_grid.shift_south(2).to_string(), "__\n__\n**");
}

#[test]
fn tile_set256_test_row_mask() {
    type Grid = TileSet256<4, 3, 12>;
    assert_eq!(Grid::row_mask(0).to_string(), "****\n____\n____");
    assert_eq!(Grid::row_mask(1).to_string(), "____\n****\n____");
    assert_eq!(Grid::row_mask(2).to_string(), "____\n____\n****");
}

#[test]
fn tile_set256_test_col_mask() {
    type Grid = TileSet256<4, 3, 12>;
    assert_eq!(Grid::col_mask(0).to_string(), "*___\n*___\n*___");
    assert_eq!(Grid::col_mask(1).to_string(), "_*__\n_*__\n_*__");
    assert_eq!(Grid::col_mask(2).to_string(), "__*_\n__*_\n__*_");
    assert_eq!(Grid::col_mask(3).to_string(), "___*\n___*\n___*");
}

#[test]
fn tile_set256_test_all() {
    type Grid = TileSet256<4, 3, 12>;
    let all = Grid::all();

    assert_eq!("****\n****\n****", all.to_string().as_str())
}

#[test]
fn tile_set256_test_is_empty() {
    type Grid = TileSet256<4, 3, 12>;
    assert!(Grid::empty().is_empty());
    assert!(!Grid::empty().with_bit_set(&Tile::north_east(), true).is_empty())
}

#[test]
fn tile_set256_test_with_bit_set() {
    type Grid = TileSet256<4, 3, 12>;
    assert_eq!(
        "*___\n____\n____",
        Grid::empty().with_bit_set(&Tile::north_west(), true).to_string().as_str()
    );
    assert_eq!(
        "_***\n****\n****",
        Grid::all().with_bit_set(&Tile::north_west(), false).to_string().as_str()
    );
}

#[test]
fn tile_set256_upper_half() {
    // A 16 by 16 grid uses both halves of the word.
    type Grid = TileSet256<16, 16, 256>;
    let last = Tile::<16, 16>::try_from_inner(255).unwrap();
    let middle = Tile::<16, 16>::try_from_inner(128).unwrap();
    let grid = Grid::empty().with_bit_set(&last, true).with_bit_set(&middle, true);
    assert_eq!(grid.into_inner(), (1u128 | (1u128 << 127), 0));
    assert!(grid.get_bit(&last));
    assert!(grid.get_bit(&middle));
    assert_eq!(grid.count(), 2);
    assert_eq!(Grid::all().count(), 256);
    assert_eq!(Grid::all().negate(), Grid::empty());
    let shifted = grid.shift_north(8);
    assert!(shifted.get_bit(&Tile::<16, 16>::try_from_inner(0).unwrap()));
    assert!(shifted.get_bit(&Tile::<16, 16>::try_from_inner(127).unwrap()));
    assert_eq!(shifted.count(), 2);
    assert_eq!(Grid::row_mask(15).count(), 16);
    assert_eq!(Grid::col_mask(15).count(), 16);
    assert_eq!(Grid::row_mask(16).count(), 0);
    assert_eq!(Grid::col_mask(16).count(), 0);
}

#[test]
fn tile_set256_iter_steps() {
    let grid = TileSet256::<4, 3, 12>::from_fn(|x: Tile<4, 3>| x.inner() % 2 == 1);
    let mut iter = TileSetIter256::<3>::new(grid.into_inner(), 1, 12);
    assert_eq!(iter.len(), 3);
    assert_eq!(iter.next(), Some(true));
    assert_eq!(iter.next_back(), Some(true));
    assert_eq!(iter.count(), 1);
    assert_eq!(iter.next(), Some(false));
    assert_eq!(iter.next(), Some(true));
    assert_eq!(iter.next(), None);
}
