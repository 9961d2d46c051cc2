use geometrid::corner::Corner;
use geometrid::dynamic_tile::DynamicTile;
use geometrid::dynamic_vertex::DynamicVertex;
use geometrid::polyomino::Polyomino;
use geometrid::rectangle::{Rectangle, RectangleIterator};
use geometrid::shape::Shape;
use geometrid::vector::Vector;

fn join_vertices(vs: &[DynamicVertex]) -> String {
    vs.iter().map(|v| v.to_string()).collect::<Vec<_>>().join("; ")
}

#[test]
pub fn test_outline() {
    let rect = Rectangle::new(Vector::north_east().into(), 2, 4);

    let outline = rect.draw_outline();

    assert_eq!(join_vertices(&outline), "(1,-1); (3,-1); (1,3); (3,3)");
}

#[test]
pub fn test_deconstruct() {
    let rect = Rectangle::new(Vector::north_east().into(), 2, 4);
    let deconstructed = rect.deconstruct_into_rectangles();

    assert_eq!(deconstructed, [rect])
}

fn collect_tiles(mut iter: RectangleIterator) -> Vec<DynamicTile> {
    let mut tiles = vec![];
    while let Some(t) = iter.next() {
        tiles.push(t);
    }
    tiles
}

#[test]
pub fn test_iter() {
    let rect = Rectangle::new(Vector::north_east().into(), 2, 4);

    let tiles = collect_tiles(rect.into_iter());

    assert_eq!(
        tiles.iter().map(|t| t.to_string()).collect::<Vec<_>>().join(";"),
        "(1,-1);(2,-1);(3,-1);(1,0);(2,0);(3,0);(1,1);(2,1);(3,1);(1,2);(2,2);(3,2);(1,3);(2,3);(3,3)"
    )
}

#[test]
pub fn rectangle_area() {
    assert_eq!(Rectangle::new(Vector::zero().into(), 3, 5).area(), 15);
    assert_eq!(Rectangle::new(Vector::zero().into(), 0, 5).area(), 0);
}

#[test]
pub fn rectangle_edges_saturate() {
    let rect = Rectangle::new(Vector::new(120, 0).into(), 20, 1);
    let outline = rect.draw_outline();
    assert_eq!(join_vertices(&outline), "(120,0); (127,0); (120,1); (127,1)");
}

#[test]
fn test_ascii_strings() {
    for (shape, name) in Polyomino::free_pentominos().iter().zip(Polyomino::<5>::free_pentomino_names()) {
        let ascii = shape.to_ascii_string();
        let roundtripped: Polyomino<5> = Polyomino::new_from_ascii(&ascii);

        if &roundtripped != shape {
            println!("{name}");
            println!("{ascii}");

            let rt_ascii = roundtripped.to_ascii_string();

            println!("vs");
            println!("{rt_ascii}");
        }
    }
}

#[test]
fn polyomino_ascii_roundtrip() {
    for shape in Polyomino::free_pentominos() {
        let ascii = shape.to_ascii_string();
        let roundtripped: Polyomino<5> = Polyomino::new_from_ascii(&ascii);
        assert_eq!(roundtripped, shape);
    }
}

#[test]
fn polyomino_ascii_pictures() {
    assert_eq!(Polyomino::t_tetromino().to_ascii_string(), "###\n.#.");
    assert_eq!(Polyomino::i_hexomino().to_ascii_string(), "######");
    assert_eq!(Polyomino::<1>::monomino().to_ascii_string(), "#");
}

#[test]
fn polyomino_new_sorts_and_normalizes() {
    let shape = Polyomino::new([Vector::new(3, 5), Vector::new(2, 7), Vector::new(2, 5)]);
    let tiles: Vec<(i8, i8)> = shape.tiles().iter().map(|t| (t.0.x, t.0.y)).collect();
    assert_eq!(tiles, vec![(0, 0), (0, 2), (1, 0)]);
}

#[test]
fn test_pentomino_rectangles() {
    for shape in Polyomino::free_pentominos() {
        let rectangles = shape.deconstruct_into_rectangles();
        let sum: usize = rectangles.iter().map(|x| x.area()).sum();
        assert_eq!(sum, 5);
    }
}

#[test]
fn polyomino_rectangles_of_l_pentomino() {
    let rectangles = Polyomino::l_pentomino().deconstruct_into_rectangles();
    let parts: Vec<(i8, i8, u8, u8)> =
        rectangles.iter().map(|r| (r.north_west.0.x, r.north_west.0.y, r.width, r.height)).collect();
    assert_eq!(parts, vec![(0, 3, 2, 1), (0, 0, 1, 3)]);
}

#[test]
fn test_basic_outlines() {
    let square = Polyomino::<1>::monomino().draw_outline();
    assert_eq!(join_vertices(&square), "(0,0); (1,0); (1,1); (0,1)");
    let domino = Polyomino::<2>::domino().draw_outline();
    assert_eq!(join_vertices(&domino), "(0,0); (1,0); (1,2); (0,2)");
}

#[test]
fn test_tetromino_outlines() {
    for shape in Polyomino::tetrominos() {
        let outline = shape.draw_outline();
        assert!(outline.len() < 100);
        assert!(outline.len() >= 4);
        assert_eq!(outline[0], DynamicVertex(shape.tiles()[0].0));
    }
    let t = Polyomino::t_tetromino().draw_outline();
    assert_eq!(join_vertices(&t), "(0,0); (3,0); (3,1); (2,1); (2,2); (1,2); (1,1); (0,1)");
}

#[test]
fn corner_turns() {
    for corner in [Corner::NorthWest, Corner::NorthEast, Corner::SouthEast, Corner::SouthWest] {
        assert_eq!(corner.clockwise().anticlockwise(), corner);
        assert_eq!(corner.clockwise().clockwise().clockwise().clockwise(), corner);
    }
    assert_eq!(Corner::NorthWest.clockwise_direction(), Vector::north());
}

#[test]
fn polyomino_ascii_round_trip() {
    for shape in Polyomino::free_pentominos() {
        let ascii = shape.to_ascii_string();
        let roundtripped: Polyomino<5> = Polyomino::new_from_ascii(&ascii);
        assert_eq!(roundtripped, shape);
    }
    for shape in Polyomino::tetrominos() {
        let ascii = shape.to_ascii_string();
        let roundtripped: Polyomino<4> = Polyomino::new_from_ascii(&ascii);
        assert_eq!(roundtripped, shape);
    }
}

#[test]
fn polyomino_ascii_of_a_long_row() {
    let mut vectors = [Vector::new(0, 0); 127];
    for (i, v) in vectors.iter_mut().enumerate() {
        *v = Vector::new(i as i8, 5);
    }
    let row: Polyomino<127> = Polyomino::new(vectors);
    let ascii = row.to_ascii_string();
    assert_eq!(ascii, "#".repeat(127));
    assert_eq!(Polyomino::<127>::new_from_ascii(&ascii), row);
}

#[test]
fn polyomino_rectangles_cover_every_tile() {
    for shape in Polyomino::free_pentominos() {
        let rectangles = shape.deconstruct_into_rectangles();
        for tile in shape.tiles() {
            let inside = rectangles.iter().filter(|r| {
                let (x, y) = (tile.0.x as i32, tile.0.y as i32);
                let (rx, ry) = (r.north_west.0.x as i32, r.north_west.0.y as i32);
                rx <= x && x < rx + r.width as i32 && ry <= y && y < ry + r.height as i32
            });
            assert_eq!(inside.count(), 1);
        }
    }
}

#[test]
fn polyomino_without_tiles_has_no_rectangles() {
    let empty: Polyomino<0> = Polyomino::new([]);
    assert!(empty.deconstruct_into_rectangles().is_empty());
}
