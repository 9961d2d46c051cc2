use geometrid::corner::Corner;
use geometrid::dynamic_vertex::DynamicVertex;
use geometrid::flip_axes::FlipAxes;
use geometrid::quarter_turns::QuarterTurns;
use geometrid::tile::Tile;
use geometrid::vector::Vector;
use geometrid::vertex::Vertex;

fn join_vertices<const W: u8, const H: u8>(vertices: &[Vertex<W, H>]) -> String {
    vertices.iter().map(|v| v.to_string()).collect::<Vec<_>>().join("|")
}

#[test]
fn vertex_test_iter_by_row() {
    let str = join_vertices(&Vertex::<2, 3>::iter_by_row());

    assert_eq!(
        str,
        "(0,0)|(1,0)|(2,0)|(0,1)|(1,1)|(2,1)|(0,2)|(1,2)|(2,2)|(0,3)|(1,3)|(2,3)",
    )
}

#[test]
fn vertex_test_from() {
    for tile in Vertex::<3, 4>::iter_by_row() {
        let n = Vertex::try_new(tile.x(), tile.y()).unwrap();
        assert_eq!(tile, n)
    }
}

#[test]
fn vertex_test_flip_vertical() {
    let flipped: Vec<_> = Vertex::<2, 2>::iter_by_row().into_iter().map(|x| x.flip(FlipAxes::Vertical)).collect();

    assert_eq!(join_vertices(&flipped), "(0,2)|(1,2)|(2,2)|(0,1)|(1,1)|(2,1)|(0,0)|(1,0)|(2,0)")
}

#[test]
fn vertex_test_add() {
    let vertex: Vertex<3, 3> = Vertex::new_const::<1, 1>();
    assert_eq!(vertex + Vector::north(), Vertex::try_new(1, 0))
}

#[test]
fn vertex_test_add_gives_none() {
    let vertex: Vertex<4, 4> = Vertex::new_const::<4, 0>();
    let r = vertex + Vector::new(1, 0);
    assert_eq!(r, None)
}

#[test]
fn vertex_test_try_from() {
    assert_eq!(Vertex::<2, 2>::try_from_inner(8), Some(Vertex::new_const::<2, 2>()));
    assert_eq!(Vertex::<2, 2>::try_from_usize(8), Some(Vertex::new_const::<2, 2>()));
    assert_eq!(Vertex::<2, 2>::try_from_inner(9), None);
    assert_eq!(Vertex::<2, 2>::try_from_usize(9), None);
}

#[test]
fn vertex_test_try_next() {
    let mut tile = Vertex::<2, 2>::try_from_inner(0).unwrap();
    let mut i = 0;
    loop {
        assert_eq!(tile.inner(), i);
        i += 1;
        if let Some(next) = tile.try_next() {
            tile = next;
        } else {
            assert_eq!(i, 9);
            break;
        }
    }
}

#[test]
fn vertex_test_flip2() {
    let vertex: Vertex<3, 3> = Vertex::new_const::<1, 2>();
    assert_eq!(vertex.flip(FlipAxes::NoFlip), Vertex::new_const::<1, 2>());
    assert_eq!(vertex.flip(FlipAxes::Horizontal), Vertex::new_const::<2, 2>());
    assert_eq!(vertex.flip(FlipAxes::Vertical), Vertex::new_const::<1, 1>());
    assert_eq!(vertex.flip(FlipAxes::Both), Vertex::new_const::<2, 1>());
}

#[test]
fn vertex_test_rotate2() {
    let vertex: Vertex<3, 3> = Vertex::new_const::<0, 0>();
    assert_eq!(vertex.rotate(QuarterTurns::Zero), Vertex::new_const::<0, 0>());
    assert_eq!(vertex.rotate(QuarterTurns::One), Vertex::new_const::<3, 0>());
    assert_eq!(vertex.rotate(QuarterTurns::Two), Vertex::new_const::<3, 3>());
    assert_eq!(vertex.rotate(QuarterTurns::Three), Vertex::new_const::<0, 3>());
}

#[test]
fn get_tile_none() {
    let vertex: Vertex<3, 3> = Vertex::new_const::<0, 0>();
    assert_eq!(vertex.get_tile(&Corner::NorthWest), None);
    assert_eq!(vertex.get_tile(&Corner::NorthEast), None);
    assert_eq!(vertex.get_tile(&Corner::SouthWest), None);
}

#[test]
fn vertex_test_int_from() {
    let vertex: Vertex<2, 2> = Vertex::new_const::<1, 1>();

    assert_eq!(<Vertex<2, 2> as Into<u8>>::into(vertex), 4u8);
    assert_eq!(<Vertex<2, 2> as Into<usize>>::into(vertex), 4usize);
    assert_eq!(<&Vertex<2, 2> as Into<u8>>::into(&vertex), 4u8);
    assert_eq!(<&Vertex<2, 2> as Into<usize>>::into(&vertex), 4usize);
}

#[test]
fn test_get_tile() {
    let vertex: Vertex<3, 3> = Vertex::new_const::<1, 1>();

    assert_eq!(vertex.get_tile(&Corner::NorthWest), Some(Tile::new_const::<0, 0>()));
    assert_eq!(vertex.get_tile(&Corner::NorthEast), Some(Tile::new_const::<1, 0>()));
    assert_eq!(vertex.get_tile(&Corner::SouthWest), Some(Tile::new_const::<0, 1>()));
    assert_eq!(vertex.get_tile(&Corner::SouthEast), Some(Tile::new_const::<1, 1>()));
}

#[test]
fn vertex_test_from_dynamic() {
    let pairs = [
        ((0i8, 0i8), Some((0u8, 0u8))),
        ((1i8, 2i8), Some((1u8, 2u8))),
        ((3i8, 0i8), Some((3u8, 0u8))),
        ((0i8, 3i8), Some((0u8, 3u8))),
        ((4i8, 0i8), None),
        ((0i8, 4i8), None),
        ((-1i8, 0i8), None),
        ((0i8, -1i8), None),
    ];

    for ((dyn_x, dyn_y), tile_option) in pairs {
        let expected = tile_option.map(|(x, y)| Vertex::<3, 3>::try_new(x, y).unwrap());

        let dynamic_tile = DynamicVertex(Vector { x: dyn_x, y: dyn_y });

        let actual = Vertex::<3, 3>::try_from_dynamic(dynamic_tile);

        assert_eq!(actual, expected);
    }
}
