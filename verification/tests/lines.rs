use geometrid::line_of_sight::line_of_sight_tiles;
use geometrid::tile::Tile;
use geometrid::tile_map::TileMap;
use geometrid::vector::Vector;

type Tile25 = Tile<5, 5>;

fn test_line_of_sight(from: Tile25, to: Tile25, expected: &str) {
    let mut actual = line_of_sight_tiles(&from, &to);
    actual.sort_by_key(|t| t.inner());

    assert_eq!(actual.iter().map(|t| t.to_string()).collect::<Vec<_>>().join("; "), expected,)
}

#[test]
fn south_east_diagonal() {
    test_line_of_sight(
        Tile25::north_west(),
        Tile25::south_east(),
        "(0,0); (1,0); (0,1); (1,1); (2,1); (1,2); (2,2); (3,2); (2,3); (3,3); (4,3); (3,4); (4,4)",
    )
}

#[test]
fn north_west_diagonal() {
    test_line_of_sight(
        Tile25::south_east(),
        Tile25::north_west(),
        "(0,0); (1,0); (0,1); (1,1); (2,1); (1,2); (2,2); (3,2); (2,3); (3,3); (4,3); (3,4); (4,4)",
    )
}

#[test]
fn straight_north() {
    test_line_of_sight(Tile25::new_const::<2, 4>(), Tile25::new_const::<2, 0>(), "(2,0); (2,1); (2,2); (2,3); (2,4)")
}

#[test]
fn straight_west() {
    test_line_of_sight(Tile25::new_const::<4, 2>(), Tile25::new_const::<0, 2>(), "(0,2); (1,2); (2,2); (3,2); (4,2)")
}

#[test]
fn partial_diagonal1() {
    test_line_of_sight(
        Tile25::new_const::<2, 0>(),
        Tile25::new_const::<3, 4>(),
        "(2,0); (2,1); (2,2); (3,2); (3,3); (3,4)",
    )
}

#[test]
fn partial_diagonal2() {
    test_line_of_sight(
        Tile25::new_const::<2, 0>(),
        Tile25::new_const::<3, 3>(),
        "(2,0); (2,1); (3,1); (2,2); (3,2); (3,3)",
    )
}

#[test]
fn line_of_sight_starts_at_from_and_reaches_to() {
    let from = Tile25::new_const::<4, 1>();
    let to = Tile25::new_const::<0, 3>();
    let tiles = line_of_sight_tiles(&from, &to);
    assert_eq!(tiles[0], from);
    assert!(tiles.contains(&to));
    assert!(tiles.iter().all(|t| t.y() >= 1 && t.y() <= 3));
    let single = line_of_sight_tiles(&from, &from);
    assert_eq!(single, vec![from]);
}

fn bool_map(cells: &[(u8, u8)]) -> TileMap<bool, 4, 4, 16> {
    let mut map: TileMap<bool, 4, 4, 16> = TileMap::default();
    for (x, y) in cells {
        map.set(Tile::try_new(*x, *y).unwrap(), true);
    }
    map
}

#[test]
pub fn test_line_finder_none() {
    let map = bool_map(&[(0, 1), (1, 1), (2, 0), (3, 0)]);

    let lines = map.get_lines(&[Vector::east(), Vector::west()], |x: &bool| *x, 4);

    assert_eq!(lines.len(), 0);
}

#[test]
pub fn test_line_finder_4() {
    let map = bool_map(&[(0, 0), (1, 1), (2, 2), (3, 3)]);

    let lines = map.get_lines(
        &[Vector::south(), Vector::east(), Vector::south_east(), Vector::north_east()],
        |x: &bool| *x,
        4,
    );

    assert_eq!(lines.len(), 1);

    let line = lines[0].clone();

    assert_eq!(line.first_item, &true);
    assert_eq!(line.length, 4);
    assert_eq!(line.origin, Tile::new_const::<0, 0>());
    assert_eq!(line.direction, Vector::south_east());

    let positions: Vec<String> = line.positions().iter().map(|t| t.to_string()).collect();
    assert_eq!(positions, vec!["(0,0)", "(1,1)", "(2,2)", "(3,3)"]);
}

#[test]
pub fn line_finder_keeps_tile_then_direction_order() {
    let map = bool_map(&[(0, 0), (1, 0), (2, 0), (0, 1), (0, 2)]);

    let lines = map.get_lines(&[Vector::east(), Vector::south()], |x: &bool| *x, 2);

    let found: Vec<(u8, Vector, usize)> = lines.iter().map(|l| (l.origin.inner(), l.direction, l.length)).collect();
    assert_eq!(
        found,
        vec![
            (0, Vector::east(), 3),
            (0, Vector::south(), 3),
            (1, Vector::east(), 2),
            (4, Vector::south(), 2),
        ]
    );
}

#[test]
fn line_of_sight_is_distinct_and_symmetric() {
    for from in Tile::<5, 4>::iter_by_row() {
        for to in Tile::<5, 4>::iter_by_row() {
            let forward = line_of_sight_tiles(&from, &to);
            let mut seen: Vec<u8> = forward.iter().map(|t| t.inner()).collect();
            seen.sort();
            let count = seen.len();
            seen.dedup();
            assert_eq!(seen.len(), count);

            let mut backward: Vec<u8> = line_of_sight_tiles(&to, &from).iter().map(|t| t.inner()).collect();
            backward.sort();
            assert_eq!(seen, backward);
        }
    }
}
