use labyrinth::geometry::Direction;
use labyrinth::geometry::Point;
use labyrinth::labyrinth::FlatLabyrinth;
use labyrinth::labyrinth::WallError;

#[test]
fn boundary_neighbours() {
    let lab = FlatLabyrinth::<(), ()>::new(3, 2, false);
    assert_eq!(lab.get_neighbour(Point(0, 0), Direction::West), None);
    assert_eq!(lab.get_neighbour(Point(0, 0), Direction::South), None);
    assert_eq!(lab.get_neighbour(Point(0, 0), Direction::East), Some(Point(1, 0)));
    assert_eq!(lab.get_neighbour(Point(0, 0), Direction::North), Some(Point(0, 1)));
    assert_eq!(lab.get_neighbour(Point(2, 1), Direction::East), None);
    assert_eq!(lab.get_neighbour(Point(2, 1), Direction::North), None);
    assert_eq!(lab.get_neighbour(Point(2, 1), Direction::West), Some(Point(1, 1)));
    assert_eq!(lab.get_neighbour(Point(2, 1), Direction::South), Some(Point(2, 0)));
    assert_eq!(lab.get_neighbour(Point(1, 0), Direction::East), Some(Point(2, 0)));
}

#[test]
fn walls_are_symmetric() {
    let mut lab = FlatLabyrinth::<(), ()>::new(3, 3, false);
    assert!(!lab.has_wall(Point(1, 1), Direction::North));
    assert_eq!(lab.try_add_wall(Point(1, 1), Direction::North), Ok(()));
    assert!(lab.has_wall(Point(1, 1), Direction::North));
    assert!(lab.has_wall(Point(1, 2), Direction::South));
    assert_eq!(lab.try_remove_wall(Point(1, 2), Direction::South), Ok(()));
    assert!(!lab.has_wall(Point(1, 1), Direction::North));
    assert!(!lab.has_wall(Point(1, 2), Direction::South));
}

#[test]
fn fully_walled_construction() {
    let lab = FlatLabyrinth::<(), ()>::new(2, 2, true);
    for x in 0..2 {
        for y in 0..2 {
            for d in Direction::iter() {
                assert!(lab.has_wall(Point(x, y), d));
            }
        }
    }
    let open = FlatLabyrinth::<(), ()>::new(2, 2, false);
    for x in 0..2 {
        for y in 0..2 {
            for d in Direction::iter() {
                assert!(!open.has_wall(Point(x, y), d));
            }
        }
    }
}

#[test]
fn mutation_contract_violations() {
    let mut lab = FlatLabyrinth::<(), ()>::new(2, 1, false);
    assert_eq!(lab.try_add_wall(Point(0, 0), Direction::East), Ok(()));
    assert_eq!(
        lab.try_add_wall(Point(0, 0), Direction::East),
        Err(WallError::AlreadyWalled)
    );
    assert_eq!(
        lab.try_add_wall(Point(1, 0), Direction::West),
        Err(WallError::AlreadyWalled)
    );
    assert_eq!(lab.try_remove_wall(Point(0, 0), Direction::East), Ok(()));
    assert_eq!(
        lab.try_remove_wall(Point(0, 0), Direction::East),
        Err(WallError::AlreadyOpen)
    );
    assert_eq!(
        lab.try_add_wall(Point(0, 0), Direction::West),
        Err(WallError::NoNeighbour)
    );
    assert_eq!(
        lab.try_remove_wall(Point(0, 0), Direction::North),
        Err(WallError::NoNeighbour)
    );
}

#[test]
fn room_and_wall_payloads() {
    let mut lab = FlatLabyrinth::<u32, u8>::new(2, 2, true);
    assert_eq!(*lab.room(Point(1, 1)), 0);
    lab.set_room(Point(1, 1), 42);
    assert_eq!(*lab.room(Point(1, 1)), 42);
    assert_eq!(*lab.room(Point(0, 0)), 0);
    assert_eq!(lab.wall(Point(0, 0), Direction::North), Some(&0));
    lab.set_wall(Point(0, 0), Direction::North, 7);
    assert_eq!(lab.wall(Point(0, 0), Direction::North), Some(&7));
    let mut open = FlatLabyrinth::<u32, u8>::new(2, 2, false);
    assert_eq!(open.wall(Point(0, 0), Direction::North), None);
    assert_eq!(open.try_add_wall(Point(0, 0), Direction::North), Ok(()));
    assert_eq!(open.wall(Point(0, 0), Direction::North), Some(&0));
}

#[test]
fn views_are_stable_snapshots() {
    let mut lab = FlatLabyrinth::<(), ()>::new(3, 2, true);
    assert_eq!(lab.try_remove_wall(Point(0, 0), Direction::East), Ok(()));
    let v1 = lab.view();
    let v2 = lab.view();
    assert_eq!(v1.width, v2.width);
    assert_eq!(v1.height, v2.height);
    assert_eq!(v1.rooms, v2.rooms);
    let before = v1.rooms.clone();
    // later mutation does not touch the snapshot already taken
    assert_eq!(lab.try_remove_wall(Point(1, 0), Direction::North), Ok(()));
    assert_eq!(v1.rooms, before);
    let v3 = lab.view();
    assert_ne!(v3.rooms, before);
    // the snapshot mirrors the wall state room for room
    assert!(!v3.rooms[lab.coord_to_index(Point(1, 0))].north);
    assert!(!v3.rooms[lab.coord_to_index(Point(1, 1))].south);
    assert!(v3.rooms[lab.coord_to_index(Point(2, 0))].north);
}
