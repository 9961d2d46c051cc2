use geometrid::corner::Corner;
use geometrid::dynamic_tile::DynamicTile;
use geometrid::dynamic_vertex::DynamicVertex;
use geometrid::flip_axes::FlipAxes;
use geometrid::quarter_turns::QuarterTurns;
use geometrid::vector::Vector;

#[test]
pub fn dynamic_tile_test_rotate() {
    let tile: DynamicTile = Vector::new(-2, 3).into();
    let rotated = tile.rotate(QuarterTurns::One);

    assert_eq!(rotated.0.x, -3);
    assert_eq!(rotated.0.y, -2);

    assert_eq!(rotated, Vector::new(-3, -2).into());
}

#[test]
pub fn dynamic_tile_test_flip() {
    let tile: DynamicTile = Vector::new(-2, 3).into();

    assert_eq!(tile.flip(FlipAxes::Both), Vector::new(2, -3).into());
}

#[test]
pub fn test_into_vector() {
    let tile: DynamicTile = Vector::new(-2, 3).into();

    assert_eq!(Vector::from(tile), Vector::new(-2, 3));
}

#[test]
pub fn dynamic_tile_test_get_vertex() {
    let tile: DynamicTile = Vector::new(-2, 3).into();

    assert_eq!(tile.get_vertex(&Corner::NorthWest), Vector::new(-2, 3).into());
    assert_eq!(tile.get_vertex(&Corner::NorthEast), Vector::new(-1, 3).into());
    assert_eq!(tile.get_vertex(&Corner::SouthWest), Vector::new(-2, 4).into());
    assert_eq!(tile.get_vertex(&Corner::SouthEast), Vector::new(-1, 4).into());
}

#[test]
pub fn dynamic_vertex_test_rotate() {
    let vertex: DynamicVertex = Vector::new(-2, 3).into();

    assert_eq!(vertex.rotate(QuarterTurns::One), Vector::new(-3, -2).into());
}

#[test]
pub fn dynamic_vertex_test_flip() {
    let vertex: DynamicVertex = Vector::new(-2, 3).into();

    assert_eq!(vertex.flip(FlipAxes::Both), Vector::new(2, -3).into());
}

#[test]
pub fn dynamic_vertex_test_add() {
    let vertex: DynamicVertex = Vector::new(-2, 3).into();

    assert_eq!(vertex + Vector::new(1, 1), Vector::new(-1, 4).into());
}

#[test]
pub fn test_into_tile() {
    let vertex: DynamicVertex = Vector::new(-2, 3).into();

    assert_eq!(vertex.get_tile(&Corner::NorthWest), Vector::new(-3, 2).into());
    assert_eq!(vertex.get_tile(&Corner::NorthEast), Vector::new(-3, 3).into());
    assert_eq!(vertex.get_tile(&Corner::SouthWest), Vector::new(-2, 2).into());
    assert_eq!(vertex.get_tile(&Corner::SouthEast), Vector::new(-2, 3).into());
}

#[test]
fn dynamic_views_as_vectors() {
    let tile = DynamicTile(Vector::new(2, -3));
    assert_eq!(tile.x, 2);
    assert_eq!(*tile.as_ref(), Vector::new(2, -3));
    let vertex = DynamicVertex(Vector::new(-1, 4));
    assert_eq!(vertex.y, 4);
    assert_eq!(*vertex.as_ref(), Vector::new(-1, 4));
    let v = Vector::new(5, 6);
    assert_eq!(*v.as_ref(), v);
}
