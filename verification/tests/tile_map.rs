use geometrid::flip_axes::FlipAxes;
use geometrid::quarter_turns::QuarterTurns;
use geometrid::tile::Tile;
use geometrid::tile_map::TileMap;

fn index_map<const W: u8, const H: u8, const SIZE: usize>() -> TileMap<usize, W, H, SIZE> {
    TileMap::from_fn(|x: Tile<W, H>| -> usize { x.into() })
}

#[test]
fn test_flip3() {
    for (axes, expected) in [
        (FlipAxes::NoFlip, "0|1|2\n3|4|5\n6|7|8"),
        (FlipAxes::Vertical, "6|7|8\n3|4|5\n0|1|2"),
        (FlipAxes::Horizontal, "2|1|0\n5|4|3\n8|7|6"),
        (FlipAxes::Both, "8|7|6\n5|4|3\n2|1|0"),
    ] {
        let grid: TileMap<usize, 3, 3, 9> = index_map::<3, 3, 9>().with_flip(axes);

        assert_eq!(grid.to_string(), expected);
    }
}

#[test]
fn test_flip4() {
    for (axes, expected) in [
        (FlipAxes::NoFlip, "0|1|2|3\n4|5|6|7\n8|9|10|11\n12|13|14|15"),
        (FlipAxes::Vertical, "12|13|14|15\n8|9|10|11\n4|5|6|7\n0|1|2|3"),
        (FlipAxes::Horizontal, "3|2|1|0\n7|6|5|4\n11|10|9|8\n15|14|13|12"),
        (FlipAxes::Both, "15|14|13|12\n11|10|9|8\n7|6|5|4\n3|2|1|0"),
    ] {
        let grid: TileMap<usize, 4, 4, 16> = index_map::<4, 4, 16>().with_flip(axes);
        assert_eq!(grid.to_string(), expected);
    }
}

fn test_rotation<const LENGTH: u8, const SIZE: usize>(e: &str) {
    let original_grid: TileMap<usize, LENGTH, LENGTH, SIZE> = index_map::<LENGTH, LENGTH, SIZE>();

    let rotated_0 = original_grid.with_rotate(QuarterTurns::Zero);
    assert_eq!(original_grid, rotated_0);

    let rotated_1 = original_grid.with_rotate(QuarterTurns::One);

    assert_eq!(rotated_1.to_string(), e);

    let rotated_2 = original_grid.with_rotate(QuarterTurns::Two);
    let rotated_1x2 = original_grid.with_rotate(QuarterTurns::One).with_rotate(QuarterTurns::One);

    assert_eq!(rotated_1x2, rotated_2);

    let rotated_3 = original_grid.with_rotate(QuarterTurns::Three);
    let rotated_1x3 = original_grid
        .with_rotate(QuarterTurns::One)
        .with_rotate(QuarterTurns::One)
        .with_rotate(QuarterTurns::One);
    assert_eq!(rotated_1x3, rotated_3);

    let rotated_1x4 = original_grid
        .with_rotate(QuarterTurns::One)
        .with_rotate(QuarterTurns::One)
        .with_rotate(QuarterTurns::One)
        .with_rotate(QuarterTurns::One);
    assert_eq!(rotated_1x4, original_grid);
}

#[test]
fn test_rotate_length_1() {
    test_rotation::<1, 1>("0");
}

#[test]
fn test_rotate_length_2() {
    test_rotation::<2, 4>("2|0\n3|1");
}

#[test]
fn test_rotate_length_3() {
    test_rotation::<3, 9>("6|3|0\n7|4|1\n8|5|2");
}

#[test]
fn test_rotate_length_4() {
    test_rotation::<4, 16>("12|8|4|0\n13|9|5|1\n14|10|6|2\n15|11|7|3");
}

#[test]
fn test_rotate_length_5() {
    test_rotation::<5, 25>("20|15|10|5|0\n21|16|11|6|1\n22|17|12|7|2\n23|18|13|8|3\n24|19|14|9|4");
}

#[test]
fn test_rotate_length_6() {
    test_rotation::<6, 36>(
        "30|24|18|12|6|0\n31|25|19|13|7|1\n32|26|20|14|8|2\n33|27|21|15|9|3\n34|28|22|16|10|4\n35|29|23|17|11|5",
    );
}

#[test]
fn tile_map_basic_tests() {
    let grid: TileMap<usize, 3, 3, 9> = index_map::<3, 3, 9>();

    for i in 0..9 {
        assert_eq!(grid[Tile::<3, 3>::try_from_usize(i).unwrap()], i)
    }

    let str = grid.to_string();

    assert_eq!(str, "0|1|2\n3|4|5\n6|7|8");

    assert_eq!(grid.to_string_alternate(), "0|1|2|3|4|5|6|7|8");

    let s_flat = grid.iter().iter().map(|x| x.to_string()).collect::<Vec<_>>().join("|");
    assert_eq!(s_flat, "0|1|2|3|4|5|6|7|8");
}

#[test]
fn tile_map_rows_columns_and_enumerate() {
    let grid: TileMap<usize, 3, 2, 6> = index_map::<3, 2, 6>();

    assert_eq!(grid.row(1), &[3, 4, 5]);
    assert_eq!(grid.column_iter(2), vec![&2, &5]);
    let pairs: Vec<(u8, usize)> = grid.enumerate().into_iter().map(|(t, v)| (t.inner(), *v)).collect();
    assert_eq!(pairs, vec![(0, 0), (1, 1), (2, 2), (3, 3), (4, 4), (5, 5)]);
}

#[test]
fn tile_map_get_set_swap() {
    let mut grid: TileMap<usize, 2, 2, 4> = index_map::<2, 2, 4>();
    let a = Tile::<2, 2>::new_const::<0, 0>();
    let b = Tile::<2, 2>::new_const::<1, 1>();

    grid.set(a, 10);
    assert_eq!(*grid.get(a), 10);
    grid.swap(a, b);
    assert_eq!(grid.into_inner(), [3, 1, 2, 10]);
}

#[test]
fn tile_map_flip_twice_gives_back_the_map() {
    let grid: TileMap<usize, 4, 3, 12> = index_map::<4, 3, 12>();
    for axes in [FlipAxes::NoFlip, FlipAxes::Horizontal, FlipAxes::Vertical, FlipAxes::Both] {
        assert_eq!(grid.with_flip(axes).with_flip(axes), grid);
    }
}

#[test]
fn tile_map_flip_both_mirrors_odd_sized_grids() {
    let grid: TileMap<usize, 3, 2, 6> = index_map::<3, 2, 6>();
    assert_eq!(grid.with_flip(FlipAxes::Both).to_string(), "5|4|3\n2|1|0");
    assert_eq!(grid.with_flip(FlipAxes::Both).with_flip(FlipAxes::Both), grid);

    let tall: TileMap<usize, 4, 3, 12> = index_map::<4, 3, 12>();
    assert_eq!(
        tall.with_flip(FlipAxes::Both).into_inner(),
        [11, 10, 9, 8, 7, 6, 5, 4, 3, 2, 1, 0]
    );
    for tile in Tile::<4, 3>::iter_by_row() {
        assert_eq!(tall.with_flip(FlipAxes::Both)[tile.flip(FlipAxes::Both)], tall[tile]);
    }
}

#[test]
fn tile_map_default_and_filled() {
    let grid: TileMap<bool, 2, 2, 4> = TileMap::default();
    assert_eq!(grid, TileMap::filled(false));
    assert_eq!(TileMap::<u8, 2, 2, 4>::from_inner([1, 2, 3, 4]).to_string(), "1|2\n3|4");
}

#[test]
fn tile_map_mutable_access() {
    let mut map: TileMap<u8, 2, 2, 4> = TileMap::from_inner([1, 2, 3, 4]);
    for cell in map.row_mut(1) {
        *cell += 10;
    }
    assert_eq!(map.clone().into_inner(), [1, 2, 13, 14]);

    *map.get_mut(Tile::<2, 2>::north_west()) = 7;
    assert_eq!(map.clone().into_inner(), [7, 2, 13, 14]);

    for cell in map.iter_mut() {
        *cell *= 2;
    }
    assert_eq!(map.clone().into_inner(), [14, 4, 26, 28]);
}

#[test]
fn tile_map_text_of_other_cells() {
    let signed: TileMap<i8, 2, 2, 4> = TileMap::from_inner([-1, 2, -30, 0]);
    assert_eq!(signed.to_string(), "-1|2\n-30|0");
    let letters: TileMap<char, 3, 1, 3> = TileMap::from_inner(['a', 'b', 'c']);
    assert_eq!(letters.to_string(), "a|b|c");
    let wide: TileMap<u64, 1, 2, 2> = TileMap::from_inner([u64::MAX, 7]);
    assert_eq!(wide.to_string(), "18446744073709551615\n7");
}

#[test]
fn tile_map_as_ref_and_as_mut() {
    let mut map: TileMap<u8, 2, 2, 4> = TileMap::from_inner([1, 2, 3, 4]);
    assert_eq!(AsRef::<[u8; 4]>::as_ref(&map), &[1, 2, 3, 4]);
    AsMut::<[u8; 4]>::as_mut(&mut map)[2] = 9;
    assert_eq!(map.clone().into_inner(), [1, 2, 9, 4]);
}
