use labyrinth::geometry::Direction;
use labyrinth::geometry::Offset;
use labyrinth::geometry::Point;
use labyrinth::geometry::Transform;

#[test]
fn within() {
    assert!(Point(5, 3).within(Point(6, 4)));
    assert!(!Point(5, 3).within(Point(6, 3)));
    assert!(!Point(5, 3).within(Point(5, 4)));
    assert!(!Point(5, 3).within(Point(5, 3)));
}

#[test]
fn bounded_by() {
    assert!(Point(5, 3).bounded_by(Point(6, 4)));
    assert!(Point(5, 3).bounded_by(Point(5, 3)));
    assert!(!Point(5, 3).within(Point(4, 3)));
    assert!(!Point(5, 3).within(Point(5, 2)));
    assert!(!Point(5, 3).within(Point(4, 2)));
}

#[test]
fn transform() {
    assert_eq!(Point(0, 0).transform(4, Direction::North), Point(3, 3));
    assert_eq!(Point(0, 0).transform(4, Direction::East), Point(3, 0));
    assert_eq!(Point(0, 0).transform(4, Direction::South), Point(0, 0));
    assert_eq!(Point(0, 0).transform(4, Direction::West), Point(0, 3));

    assert_eq!(Point(1, 2).transform(4, Direction::North), Point(2, 1));
    assert_eq!(Point(1, 2).transform(4, Direction::East), Point(1, 1));
    assert_eq!(Point(1, 2).transform(4, Direction::South), Point(1, 2));
    assert_eq!(Point(1, 2).transform(4, Direction::West), Point(2, 2));
}

#[test]
fn flip_involution() {
    assert_eq!(Direction::North.flip(), Direction::South);
    assert_eq!(Direction::East.flip(), Direction::West);
    assert_eq!(Direction::South.flip(), Direction::North);
    assert_eq!(Direction::West.flip(), Direction::East);
    for d in Direction::iter() {
        assert_eq!(d.flip().flip(), d);
    }
}

#[test]
fn iteration_order() {
    assert_eq!(
        Direction::iter(),
        vec![Direction::North, Direction::East, Direction::South, Direction::West]
    );
}

#[test]
fn transform_application() {
    let t = Transform::new(4, Direction::East);
    assert_eq!(t.apply(Point(1, 0)), Point(3, 1));
    assert_eq!(t.apply(Point(2, 0)), Point(3, 2));
}

#[test]
fn offsets_translate_points() {
    assert_eq!(Offset(2, 3).compose(Offset(4, 5)), Offset(6, 8));
    assert_eq!(Point(1, 1).translate(Offset(2, 0)), Point(3, 1));
}
