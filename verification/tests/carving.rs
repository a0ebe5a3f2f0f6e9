use labyrinth::generator::carve;
use labyrinth::generator::random_walk;
use labyrinth::generator::Chooser;
use labyrinth::geometry::Direction;
use labyrinth::geometry::Point;
use labyrinth::labyrinth::FlatLabyrinth;

/// The number of open passages of the grid, counting each passage once.
fn open_passages(lab: &FlatLabyrinth<(), ()>, width: usize, height: usize) -> usize {
    let mut count = 0;
    for x in 0..width {
        for y in 0..height {
            for d in [Direction::East, Direction::North] {
                if lab.get_neighbour(Point(x, y), d).is_some() && !lab.has_wall(Point(x, y), d) {
                    count += 1;
                }
            }
        }
    }
    count
}

/// How many rooms a walk along open passages can reach from the origin.
fn reachable_rooms(lab: &FlatLabyrinth<(), ()>, width: usize, height: usize) -> usize {
    let mut visited = vec![false; width * height];
    let mut stack = vec![Point(0, 0)];
    visited[0] = true;
    let mut count = 1;
    while let Some(p) = stack.pop() {
        for d in Direction::iter() {
            if let Some(q) = lab.get_neighbour(p, d) {
                if !lab.has_wall(p, d) && !visited[q.1 * width + q.0] {
                    visited[q.1 * width + q.0] = true;
                    count += 1;
                    stack.push(q);
                }
            }
        }
    }
    count
}

#[test]
fn spanning_tree_random() {
    let width = 6;
    let height = 4;
    let mut lab = FlatLabyrinth::<(), ()>::new(width, height, true);
    random_walk(&mut lab);
    assert_eq!(open_passages(&lab, width, height), width * height - 1);
    assert_eq!(reachable_rooms(&lab, width, height), width * height);
}

#[test]
fn spanning_tree_seeded() {
    for seed in [0u64, 1, 12345, 0xdead_beef] {
        let width = 5;
        let height = 5;
        let mut lab = FlatLabyrinth::<(), ()>::new(width, height, true);
        let mut chooser = Chooser::Seeded(seed);
        carve(&mut lab, &mut chooser);
        assert_eq!(open_passages(&lab, width, height), width * height - 1);
        assert_eq!(reachable_rooms(&lab, width, height), width * height);
    }
}

#[test]
fn single_room_walk() {
    let mut lab = FlatLabyrinth::<(), ()>::new(1, 1, true);
    random_walk(&mut lab);
    assert_eq!(open_passages(&lab, 1, 1), 0);
    for d in Direction::iter() {
        assert!(lab.has_wall(Point(0, 0), d));
    }
}

#[test]
fn seeded_carving_is_reproducible() {
    let mut first = FlatLabyrinth::<(), ()>::new(6, 4, true);
    let mut second = FlatLabyrinth::<(), ()>::new(6, 4, true);
    carve(&mut first, &mut Chooser::Seeded(99));
    carve(&mut second, &mut Chooser::Seeded(99));
    assert_eq!(first.view().rooms, second.view().rooms);
}

#[test]
fn chooser_picks_below_bound() {
    let mut random = Chooser::Random;
    for n in 1..10 {
        assert!(random.choose_below(n) < n);
    }
    let mut a = Chooser::Seeded(7);
    let mut b = Chooser::Seeded(7);
    for n in 1..10 {
        let pick = a.choose_below(n);
        assert!(pick < n);
        assert_eq!(pick, b.choose_below(n));
    }
}

#[test]
fn random_room_is_the_fixed_anchor() {
    let lab = FlatLabyrinth::<(), ()>::new(4, 3, true);
    assert_eq!(lab.random_room(), Point(0, 0));
}
