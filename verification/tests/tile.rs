use geometrid::corner::Corner;
use geometrid::dynamic_tile::DynamicTile;
use geometrid::flip_axes::FlipAxes;
use geometrid::quarter_turns::QuarterTurns;
use geometrid::tile::Tile;
use geometrid::tile_map::TileMap;
use geometrid::tile_set::TileSet16;
use geometrid::vector::Vector;
use geometrid::vertex::Vertex;

fn join_tiles<const W: u8, const H: u8>(tiles: &[Tile<W, H>]) -> String {
    tiles.iter().map(|t| t.to_string()).collect::<Vec<_>>().join("|")
}

#[test]
fn tile_test_iter_by_row() {
    let str = join_tiles(&Tile::<3, 4>::iter_by_row());

    assert_eq!(
        str,
        "(0,0)|(1,0)|(2,0)|(0,1)|(1,1)|(2,1)|(0,2)|(1,2)|(2,2)|(0,3)|(1,3)|(2,3)",
    )
}

#[test]
fn test_iter_by_col() {
    let str = join_tiles(&Tile::<3, 4>::iter_by_col());

    assert_eq!(
        str,
        "(0,0)|(0,1)|(0,2)|(0,3)|(1,0)|(1,1)|(1,2)|(1,3)|(2,0)|(2,1)|(2,2)|(2,3)",
    )
}

#[test]
fn tile_test_from() {
    for tile in Tile::<3, 4>::iter_by_row() {
        let n = Tile::try_new(tile.x(), tile.y()).unwrap();
        assert_eq!(tile, n)
    }
}

#[test]
fn test_flip1() {
    let flipped: Vec<_> = Tile::<3, 3>::iter_by_row()
        .into_iter()
        .map(|x| x.flip(FlipAxes::Vertical))
        .collect();

    assert_eq!(
        join_tiles(&flipped),
        "(0,2)|(1,2)|(2,2)|(0,1)|(1,1)|(2,1)|(0,0)|(1,0)|(2,0)"
    )
}

#[test]
fn test_rotate1() {
    let rotated: Vec<_> = Tile::<3, 3>::iter_by_row()
        .into_iter()
        .map(|x| x.rotate(QuarterTurns::One))
        .collect();

    assert_eq!(
        join_tiles(&rotated),
        "(2,0)|(2,1)|(2,2)|(1,0)|(1,1)|(1,2)|(0,0)|(0,1)|(0,2)"
    )
}

#[test]
fn tile_test_flip2() {
    let tile: Tile<4, 4> = Tile::new_const::<1, 2>();
    assert_eq!(tile.flip(FlipAxes::NoFlip), Tile::new_const::<1, 2>());
    assert_eq!(tile.flip(FlipAxes::Horizontal), Tile::new_const::<2, 2>());
    assert_eq!(tile.flip(FlipAxes::Vertical), Tile::new_const::<1, 1>());
    assert_eq!(tile.flip(FlipAxes::Both), Tile::new_const::<2, 1>());
}

#[test]
fn tile_test_rotate2() {
    let tile: Tile<4, 4> = Tile::new_const::<0, 0>();
    assert_eq!(tile.rotate(QuarterTurns::Zero), Tile::new_const::<0, 0>());
    assert_eq!(tile.rotate(QuarterTurns::One), Tile::new_const::<3, 0>());
    assert_eq!(tile.rotate(QuarterTurns::Two), Tile::new_const::<3, 3>());
    assert_eq!(tile.rotate(QuarterTurns::Three), Tile::new_const::<0, 3>());
}

#[test]
fn test_manhattan() {
    let a: Tile<3, 3> = Tile::new_const::<0, 0>();
    let b: Tile<3, 3> = Tile::new_const::<2, 1>();

    assert_eq!(a.manhattan_distance(&b), 3);
    assert_eq!(b.manhattan_distance(&a), 3);
}

#[test]
fn tile_test_add() {
    let tile: Tile<3, 3> = Tile::new_const::<1, 1>();
    assert_eq!(tile + Vector::north(), Tile::try_new(1, 0))
}

#[test]
fn tile_test_add_gives_none() {
    let tile: Tile<4, 4> = Tile::new_const::<3, 0>();
    let r = tile + Vector::new(1, 0);
    assert_eq!(r, None)
}

#[test]
fn tile_test_int_from() {
    let tile: Tile<3, 3> = Tile::new_const::<1, 1>();

    assert_eq!(<Tile<3, 3> as Into<u8>>::into(tile), 4u8);
    assert_eq!(<Tile<3, 3> as Into<usize>>::into(tile), 4usize);
    assert_eq!(<&Tile<3, 3> as Into<u8>>::into(&tile), 4u8);
    assert_eq!(<&Tile<3, 3> as Into<usize>>::into(&tile), 4usize);
}

#[test]
fn test_debug() {
    let tile: Tile<3, 3> = Tile::new_const::<1, 2>();

    assert_eq!(tile.to_string(), "(1,2)")
}

#[test]
fn tile_test_try_from() {
    assert_eq!(Tile::<3, 3>::try_from_inner(8), Some(Tile::new_const::<2, 2>()));
    assert_eq!(Tile::<3, 3>::try_from_usize(8), Some(Tile::new_const::<2, 2>()));
    assert_eq!(Tile::<3, 3>::try_from_inner(9), None);
    assert_eq!(Tile::<3, 3>::try_from_usize(9), None);
}

#[test]
fn tile_test_try_next() {
    let mut tile = Tile::<3, 3>::try_from_inner(0).unwrap();
    let mut i = 0;
    loop {
        assert_eq!(tile.inner(), i);
        i += 1;
        if let Some(next) = tile.try_next() {
            tile = next;
        } else {
            assert_eq!(i, 9);
            break;
        }
    }
}

#[test]
fn tile_test_get_vertex() {
    let tile = Tile::<2, 2>::new_const::<0, 0>();

    assert_eq!(tile.get_vertex(&Corner::NorthWest), Some(Vertex::new_const::<0, 0>()));
    assert_eq!(tile.get_vertex(&Corner::NorthEast), Some(Vertex::new_const::<1, 0>()));
    assert_eq!(tile.get_vertex(&Corner::SouthWest), Some(Vertex::new_const::<0, 1>()));
    assert_eq!(tile.get_vertex(&Corner::SouthEast), Some(Vertex::new_const::<1, 1>()));

    assert_eq!(tile.get_north_west_vertex(), Vertex::new_const::<0, 0>())
}

#[test]
fn test_adjacent() {
    let tile = Tile::<3, 3>::new_const::<0, 0>();

    let expected_adjacent_tiles = [
        Tile::<3, 3>::new_const::<1, 0>(),
        Tile::<3, 3>::new_const::<1, 1>(),
        Tile::<3, 3>::new_const::<0, 1>(),
    ];

    assert_eq!(tile.iter_adjacent(), expected_adjacent_tiles);

    for rhs in Tile::<3, 3>::iter_by_row() {
        let expected = expected_adjacent_tiles.contains(&rhs);
        let actual = tile.is_adjacent_to(&rhs);
        assert_eq!(expected, actual)
    }
}

#[test]
fn test_contiguous() {
    let tile = Tile::<3, 3>::new_const::<0, 0>();

    let expected_contiguous_tiles = [Tile::<3, 3>::new_const::<1, 0>(), Tile::<3, 3>::new_const::<0, 1>()];

    assert_eq!(tile.iter_contiguous(), expected_contiguous_tiles);

    for rhs in Tile::<3, 3>::iter_by_row() {
        let expected = expected_contiguous_tiles.contains(&rhs);
        let actual = tile.is_contiguous_with(&rhs);
        assert_eq!(expected, actual, "{}", rhs.to_string())
    }
}

#[test]
fn tile_test_from_dynamic() {
    let pairs = [
        ((0i8, 0i8), Some((0u8, 0u8))),
        ((1i8, 2i8), Some((1u8, 2u8))),
        ((3i8, 0i8), None),
        ((0i8, 3i8), None),
        ((-1i8, 0i8), None),
        ((0i8, -1i8), None),
    ];

    for ((dyn_x, dyn_y), tile_option) in pairs {
        let expected = tile_option.map(|(x, y)| Tile::<3, 3>::try_new(x, y).unwrap());

        let dynamic_tile = DynamicTile(Vector { x: dyn_x, y: dyn_y });

        let actual = Tile::<3, 3>::try_from_dynamic(dynamic_tile);

        assert_eq!(actual, expected);
    }
}

#[test]
fn test_is_corner() {
    let corners: TileSet16<3, 4, 12> = TileSet16::from_fn(|tile| tile.is_corner());

    assert_eq!("*_*\n___\n___\n*_*", corners.to_string())
}

#[test]
fn test_is_edge() {
    let edges: TileSet16<3, 4, 12> = TileSet16::from_fn(|tile| tile.is_edge());

    assert_eq!("***\n*_*\n*_*\n***", edges.to_string())
}

#[test]
fn test_adjacent_tile_count() {
    let adjacencies: TileMap<u8, 3, 4, 12> = TileMap::from_fn(|tile: Tile<3, 4>| tile.adjacent_tile_count());

    assert_eq!("3|5|3\n5|8|5\n5|8|5\n3|5|3", adjacencies.to_string())
}

#[test]
fn adjacent_tiles_agree_with_adjacency() {
    for tile in Tile::<3, 4>::iter_by_row() {
        let adjacent = tile.iter_adjacent();
        assert_eq!(adjacent.len(), tile.adjacent_tile_count() as usize);
        let contiguous = tile.iter_contiguous();
        for other in Tile::<3, 4>::iter_by_row() {
            assert_eq!(adjacent.contains(&other), tile.is_adjacent_to(&other));
            assert_eq!(contiguous.contains(&other), tile.is_contiguous_with(&other));
        }
    }
}

#[test]
fn tile_max_col_and_row() {
    assert_eq!(Tile::<4, 3>::max_col(), 3);
    assert_eq!(Tile::<4, 3>::max_row(), 2);
    assert_eq!(Tile::<4, 3>::south_east().x(), Tile::<4, 3>::max_col());
}

#[test]
fn empty_grids_have_no_tiles() {
    assert!(Tile::<0, 3>::iter_by_row().is_empty());
    assert!(Tile::<4, 0>::iter_by_row().is_empty());
    assert_eq!(Tile::<0, 3>::count(), 0);
    let map: TileMap<u8, 0, 3, 0> = TileMap::from_fn(|_t: Tile<0, 3>| 1u8);
    assert_eq!(map.into_inner(), []);
}
