use geometrid::point_absolute::PointAbsolute;
use geometrid::point_relative::PointRelative;

type P = PointAbsolute<4, 3>;

#[test]
fn point_absolute_coordinates() {
    let p = P::try_new(2, 1).unwrap();
    assert_eq!((p.x(), p.y()), (2, 1));
    assert_eq!(usize::from(p), 6);
    assert_eq!(p.to_string(), "(2,1)");
    assert_eq!(P::try_new(4, 0), None);
    assert_eq!(P::try_from_usize(11).map(|p| (p.x(), p.y())), Some((3, 2)));
    assert_eq!(P::try_from_usize(12), None);
    assert_eq!(P::center().to_string(), "(2,1)");
    assert_eq!(P::bottom_right().to_string(), "(3,2)");
}

#[test]
fn point_absolute_edges_and_flips() {
    assert!(P::top_right().is_corner());
    assert!(!P::try_new(1, 0).unwrap().is_corner());
    assert!(P::try_new(1, 0).unwrap().is_edge());
    assert!(!P::try_new(1, 1).unwrap().is_edge());
    assert_eq!(P::new_const::<0, 1>().flip_horizontal(), P::new_const::<3, 1>());
    assert_eq!(P::new_const::<0, 0>().flip_vertical(), P::new_const::<0, 2>());
    assert_eq!(P::new_const::<0, 0>().manhattan_distance(&P::new_const::<3, 2>()), 5);
}

#[test]
fn point_absolute_next_and_rotate() {
    let mut p = P::top_left();
    let mut count = 1;
    while let Some(next) = p.try_next() {
        p = next;
        count += 1;
    }
    assert_eq!(count, 12);
    let q: PointAbsolute<3, 3> = PointAbsolute::new_const::<0, 0>();
    assert_eq!(q.rotate(1), PointAbsolute::new_const::<2, 0>());
    assert_eq!(q.rotate(2), PointAbsolute::new_const::<2, 2>());
    assert_eq!(q.rotate(7), PointAbsolute::new_const::<0, 2>());
}

#[test]
fn point_absolute_add_relative() {
    let p = P::new_const::<1, 1>();
    assert_eq!(p + PointRelative::up(), Some(P::new_const::<1, 0>()));
    assert_eq!(p + PointRelative::new(-2, 0), None);
    assert_eq!(p + PointRelative::new(3, 0), None);
}

#[test]
fn point_relative_basics() {
    assert_eq!(PointRelative::zero().to_string(), "Zero");
    assert_eq!(PointRelative::up_left().to_string(), "Up Left");
    assert_eq!(PointRelative::new(0, -2).to_string(), "PointRelative { x: 0, y: -2 }");
    assert!(PointRelative::down_right().is_unit());
    assert!(!PointRelative::new(2, 0).is_unit());
    assert!(PointRelative::down_right().is_diagonal());
    assert_eq!(PointRelative::up().flip(), PointRelative::down());
    assert_eq!(-PointRelative::left(), PointRelative::right());
    assert_eq!(PointRelative::up() + PointRelative::right(), PointRelative::up_right());
    assert_eq!(PointRelative::up() * 3i16, PointRelative::new(0, -3));
    assert_eq!(PointRelative::up().const_mul(-2), PointRelative::new(0, 2));
    assert_eq!(PointRelative::up().rotate(1), PointRelative::new(-1, 0));
    assert_eq!(PointRelative::cardinals()[1], PointRelative::right());
    assert_eq!(PointRelative::units().len(), 8);
}

#[test]
fn point_relative_unit_names() {
    let names = PointRelative::unit_names();
    let units = PointRelative::units();
    for i in 0..8 {
        assert_eq!(units[i].to_string(), names[i]);
    }
    assert_eq!(names[7], "Up Left");
}

#[test]
fn point_absolute_empty_grid() {
    type E = PointAbsolute<0, 3>;
    assert_eq!(E::try_new(0, 0), None);
    assert_eq!(E::try_from_usize(0), None);
    assert_eq!(E::default().try_next(), None);
}
