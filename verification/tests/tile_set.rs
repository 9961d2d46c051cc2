use geometrid::tile::Tile;
use geometrid::tile_set::{TileSet128, TileSet16, TileSet64, TileSet8, TileSetIter16};

fn stars(bits: &[bool]) -> String {
    bits.iter().map(|x| if *x { "*" } else { "_" }).collect::<Vec<_>>().join("")
}

#[test]
fn tile_set_basic_tests() {
    let mut grid: TileSet16<3, 3, 9> = TileSet16::from_fn(|x: Tile<3, 3>| x.inner() % 2 == 0);

    assert_eq!(grid.to_string(), "*_*\n_*_\n*_*");
    assert_eq!(grid.to_string_alternate(), "*_*_*_*_*");

    assert_eq!(grid.count(), 5);

    for tile in Tile::<3, 3>::iter_by_row() {
        assert_eq!(grid.get_bit(&tile), tile.inner() % 2 == 0)
    }

    grid.set_bit(&Tile::center(), false);

    assert_eq!(grid.to_string(), "*_*\n___\n*_*");
    assert_eq!(grid.count(), 4);

    let mut inners = vec![];
    let mut iter = grid.iter_true_tiles();
    while let Some(x) = iter.next() {
        inners.push(x.inner());
    }
    assert_eq!(inners.as_slice(), &[0, 2, 6, 8]);

    assert_eq!(grid.iter().len(), 9);
    assert_eq!(grid.into_inner(), 325);

    assert_eq!(grid.negate().to_string(), "_*_\n***\n_*_");
}

#[test]
fn tile_set_test_intersect() {
    let grid_left: TileSet16<3, 3, 9> = TileSet16::from_fn(|x: Tile<3, 3>| x.x() == 1);
    let grid_right: TileSet16<3, 3, 9> = TileSet16::from_fn(|x: Tile<3, 3>| x.y() == 1);

    assert_eq!(grid_left.intersect(&grid_right).to_string(), "___\n_*_\n___")
}

#[test]
fn tile_set_test_union() {
    let grid_left: TileSet16<3, 3, 9> = TileSet16::from_fn(|x: Tile<3, 3>| x.x() == 0);
    let grid_top: TileSet16<3, 3, 9> = TileSet16::from_fn(|x: Tile<3, 3>| x.y() == 0);

    assert_eq!(grid_left.union(&grid_top).to_string(), "***\n*__\n*__")
}

#[test]
fn tile_set_test_symmetric_difference() {
    let grid_left: TileSet16<3, 3, 9> = TileSet16::from_fn(|x: Tile<3, 3>| x.x() == 0);
    let grid_top: TileSet16<3, 3, 9> = TileSet16::from_fn(|x: Tile<3, 3>| x.y() == 0);

    assert_eq!(grid_left.symmetric_difference(&grid_top).to_string(), "_**\n*__\n*__")
}

#[test]
fn tile_set_test_subset() {
    let grid_top: TileSet16<3, 3, 9> = TileSet16::from_fn(|x: Tile<3, 3>| x.y() == 0);
    let all: TileSet16<3, 3, 9> = TileSet16::all();

    assert!(grid_top.is_subset(&all));
    assert!(grid_top.is_subset(&grid_top));
    assert!(!all.is_subset(&grid_top));
}

#[test]
fn tile_set_test_superset() {
    let grid_top: TileSet16<3, 3, 9> = TileSet16::from_fn(|x: Tile<3, 3>| x.y() == 0);
    let all: TileSet16<3, 3, 9> = TileSet16::all();

    assert!(!grid_top.is_superset(&all));
    assert!(grid_top.is_superset(&grid_top));
    assert!(all.is_superset(&grid_top));
}

#[test]
fn tile_set_test_from_inner() {
    assert_eq!(TileSet16::<3, 3, 9>::from_inner(3).to_string(), "**_\n___\n___")
}

#[test]
fn tile_set_test_from_iter() {
    let grid = TileSet16::<3, 3, 9>::from_iter(vec![Tile::try_from_inner(0).unwrap(), Tile::try_from_inner(1).unwrap()]);
    assert_eq!(grid.to_string(), "**_\n___\n___")
}

#[test]
fn tile_set_test_iter_reverse() {
    let grid = TileSet16::<4, 3, 12>::from_fn(|x: Tile<4, 3>| x.inner() >= 6);

    let mut bits = grid.iter();
    bits.reverse();
    assert_eq!(stars(&bits), "******______");
}

#[test]
fn tile_set_test_row() {
    let grid = TileSet16::<4, 3, 12>::from_fn(|x: Tile<4, 3>| x.inner() % 3 == 1);

    assert_eq!(stars(&grid.row(0)), "_*__");
    assert_eq!(stars(&grid.row(1)), "*__*");
    assert_eq!(stars(&grid.row(2)), "__*_");
}

#[test]
fn tile_set_test_col() {
    let grid = TileSet16::<4, 3, 12>::from_fn(|x: Tile<4, 3>| x.inner() % 2 == 1);

    assert_eq!(stars(&grid.col(0)), "_*_");
    assert_eq!(stars(&grid.col(1)), "*_*");
    assert_eq!(stars(&grid.col(2)), "_*_");
    assert_eq!(stars(&grid.col(3)), "*_*");
}

#[test]
fn tile_set_test_enumerate() {
    let grid = TileSet16::<3, 3, 9>::from_fn(|x: Tile<3, 3>| x.inner() == 5);

    assert_eq!(
        grid.enumerate()
            .into_iter()
            .map(|(t, x)| t.inner().to_string() + if x { "*" } else { "_" })
            .collect::<Vec<_>>()
            .join(""),
        "0_1_2_3_4_5*6_7_8_"
    );
}

#[test]
fn tile_set_test_shift() {
    let full_grid = TileSet16::<2, 3, 6>::default().negate();

    assert_eq!(full_grid.shift_north(0), full_grid);
    assert_eq!(full_grid.shift_south(0), full_grid);

    assert_eq!(full_grid.shift_north(1).to_string(), "**\n**\n__");
    assert_eq!(full_grid.shift_south(1).to_string(), "__\n**\n**");

    assert_eq!(full_grid.shift_north(2).to_string(), "**\n__\n__");
    assert_eq!(full_grid.shift_south(2).to_string(), "__\n__\n**");
}

#[test]
fn tile_set_test_row_mask() {
    type Grid = TileSet16<4, 3, 12>;
    assert_eq!(Grid::row_mask(0).to_string(), "****\n____\n____");
    assert_eq!(Grid::row_mask(1).to_string(), "____\n****\n____");
    assert_eq!(Grid::row_mask(2).to_string(), "____\n____\n****");
}

#[test]
fn tile_set_test_col_mask() {
    type Grid = TileSet16<4, 3, 12>;
    assert_eq!(Grid::col_mask(0).to_string(), "*___\n*___\n*___");
    assert_eq!(Grid::col_mask(1).to_string(), "_*__\n_*__\n_*__");
    assert_eq!(Grid::col_mask(2).to_string(), "__*_\n__*_\n__*_");
    assert_eq!(Grid::col_mask(3).to_string(), "___*\n___*\n___*");
}

#[test]
fn tile_set_test_all() {
    type Grid = TileSet16<4, 3, 12>;
    let all = Grid::all();

    assert_eq!("****\n****\n****", all.to_string().as_str())
}

#[test]
fn tile_set_test_is_empty() {
    type Grid = TileSet16<4, 3, 12>;
    assert!(Grid::empty().is_empty());
    assert!(!Grid::empty().with_bit_set(&Tile::north_east(), true).is_empty())
}

#[test]
fn tile_set_test_with_bit_set() {
    type Grid = TileSet16<4, 3, 12>;
    assert_eq!("*___\n____\n____", Grid::empty().with_bit_set(&Tile::north_west(), true).to_string().as_str());
    assert_eq!("_***\n****\n****", Grid::all().with_bit_set(&Tile::north_west(), false).to_string().as_str());
}

#[test]
fn test_iter_length_and_count() {
    type Iter = TileSetIter16<2>;

    let iter = Iter::new(0, 0, 12);

    let len = iter.len();

    assert_eq!(len, 6);

    let count = iter.count();

    assert_eq!(count, 6);
}

#[test]
fn test_true_iter_length_and_count() {
    type Grid = TileSet16<4, 3, 12>;

    let mut iter = Grid::all().iter_true_tiles();

    assert_eq!(12, iter.len());
    assert_eq!(12, iter.clone().count());

    let _ = iter.next();
    assert_eq!(11, iter.len());
    assert_eq!(11, iter.count());
}

#[test]
fn test_true_iter_min_max_last() {
    type Grid = TileSet16<4, 3, 12>;

    let iter = Grid::from_fn(|x: Tile<4, 3>| x.inner() % 5 == 0).iter_true_tiles();

    assert_eq!(0, iter.clone().min().unwrap().inner());
    assert_eq!(10, iter.clone().max().unwrap().inner());
    assert_eq!(10, iter.last().unwrap().inner());
}

#[test]
fn test_first() {
    let mut set = TileSet16::<4, 3, 12>::from_fn(|tile: Tile<4, 3>| tile.x() > tile.y());

    let expected: Vec<_> = Tile::<4, 3>::iter_by_row().into_iter().filter(|tile| tile.x() > tile.y()).collect();
    let mut actual: Vec<Tile<4, 3>> = vec![];

    while let Some(first) = set.first() {
        set.set_bit(&first, false);
        actual.push(first);
    }

    assert_eq!(expected, actual);
}

#[test]
fn test_last() {
    let mut set = TileSet16::<4, 3, 12>::from_fn(|tile: Tile<4, 3>| tile.x() > tile.y());

    let mut expected: Vec<_> = Tile::<4, 3>::iter_by_row().into_iter().filter(|tile| tile.x() > tile.y()).collect();
    expected.reverse();
    let mut actual: Vec<Tile<4, 3>> = vec![];

    while let Some(last) = set.last() {
        set.set_bit(&last, false);
        actual.push(last);
    }

    assert_eq!(expected, actual);
}

#[test]
fn test_iter_true_rev() {
    let set = TileSet16::<4, 3, 12>::from_fn(|tile: Tile<4, 3>| tile.x() > tile.y());

    let mut expected: Vec<_> = Tile::<4, 3>::iter_by_row().into_iter().filter(|tile| tile.x() > tile.y()).collect();
    expected.reverse();
    let mut actual: Vec<Tile<4, 3>> = vec![];
    let mut iter = set.iter_true_tiles();
    while let Some(t) = iter.next_back() {
        actual.push(t);
    }

    assert_eq!(expected, actual);
}

#[test]
fn tile_set_pop_and_pop_last() {
    let mut set = TileSet8::<3, 2, 6>::from_fn(|tile: Tile<3, 2>| tile.inner() != 2);
    assert_eq!(set.pop().map(|t| t.inner()), Some(0));
    assert_eq!(set.pop_last().map(|t| t.inner()), Some(5));
    assert_eq!(set.to_string(), "_*_\n**_");
    assert_eq!(TileSet8::<3, 2, 6>::empty().pop_last(), None);
}

#[test]
fn tile_set_wide_grid() {
    let set = TileSet64::<9, 7, 63>::from_fn(|tile: Tile<9, 7>| tile.y() == 6);
    assert_eq!(set.count(), 9);
    assert_eq!(set.first().map(|t| t.inner()), Some(54));
    assert_eq!(set.last().map(|t| t.inner()), Some(62));
}

#[test]
fn test_true_iter_nth() {
    let set: TileSet64<9, 7, 63> = TileSet64::<9, 7, 63>::from_fn(|tile: Tile<9, 7>| tile.x() > tile.y());
    let vec: Vec<_> = Tile::<9, 7>::iter_by_row().into_iter().filter(|tile| tile.x() > tile.y()).collect();

    let mut set_iter = set.iter_true_tiles();
    let mut vec_iter = vec.into_iter();

    for n in [0usize, 1, 0, 5, 0, 1, 0, 40] {
        assert_eq!(set_iter.len(), vec_iter.len());
        let actual = set_iter.nth(n);
        let expected = vec_iter.nth(n);
        assert_eq!(actual, expected);
    }
    assert_eq!(set_iter.len(), vec_iter.len());
}

#[test]
fn test_true_iter_nth_back() {
    let set: TileSet64<9, 7, 63> = TileSet64::<9, 7, 63>::from_fn(|tile: Tile<9, 7>| tile.x() > tile.y());
    let vec: Vec<_> = Tile::<9, 7>::iter_by_row().into_iter().filter(|tile| tile.x() > tile.y()).collect();

    let mut set_iter = set.iter_true_tiles();
    let mut vec_iter = vec.into_iter();

    for n in [0usize, 1, 0, 5, 0, 1, 0, 40] {
        assert_eq!(set_iter.len(), vec_iter.len());
        let actual = set_iter.nth_back(n);
        let expected = vec_iter.nth_back(n);
        assert_eq!(actual, expected);
    }
    assert_eq!(set_iter.len(), vec_iter.len());
}

#[test]
fn tile_set_iter_steps() {
    let mut iter = TileSetIter16::<3>::new(0b1001_0010, 1, 9);
    assert_eq!(iter.len(), 2);
    assert_eq!(iter.next(), Some(true));
    assert_eq!(iter.next_back(), Some(false));
    assert_eq!(iter.next(), Some(true));
    assert_eq!(iter.next_back(), None);
}

#[test]
fn tile_set128_wide_grid() {
    type Grid = TileSet128<16, 8, 128>;
    let far = Tile::<16, 8>::try_from_inner(100).unwrap();
    let near = Tile::<16, 8>::try_from_inner(3).unwrap();
    let grid = Grid::empty().with_bit_set(&far, true).with_bit_set(&near, true);
    assert_eq!(grid.into_inner(), (1u128 << 100) | (1u128 << 3));
    assert!(grid.get_bit(&far));
    assert_eq!(grid.count(), 2);
    assert_eq!(grid.first(), Some(near));
    assert_eq!(grid.last(), Some(far));

    let mut popped = grid;
    assert_eq!(popped.pop_last(), Some(far));
    assert_eq!(popped.pop(), Some(near));
    assert!(popped.is_empty());

    assert_eq!(Grid::all().count(), 128);
    assert_eq!(Grid::all().negate(), Grid::empty());
    assert_eq!(Grid::row_mask(7).count(), 16);
    assert_eq!(Grid::col_mask(15).count(), 8);

    let shifted = grid.shift_north(6);
    assert_eq!(shifted.into_inner(), 1u128 << 4);

    let mut iter = grid.iter_true_tiles();
    assert_eq!(iter.nth(1), Some(far));
    assert_eq!(iter.next(), None);
}
