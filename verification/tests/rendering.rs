use labyrinth::generator::carve;
use labyrinth::generator::Chooser;
use labyrinth::geometry::Offset;
use labyrinth::geometry::Point;
use labyrinth::geometry::Direction;
use labyrinth::labyrinth::FlatLabyrinth;
use labyrinth::text_display::TextSurface;
use labyrinth::views::LabyrinthView;
use labyrinth::views::RoomView;

fn lines(surface: &TextSurface) -> Vec<String> {
    surface.rows().into_iter().map(|row| row.into_iter().collect()).collect()
}

#[test]
fn single_walled_room_block() {
    let lab = FlatLabyrinth::<(), ()>::new(1, 1, true);
    let surface = TextSurface::create_and_draw(&lab.view());
    assert_eq!(surface.width(), 4);
    assert_eq!(surface.height(), 4);
    assert_eq!(lines(&surface), vec!["####", "#  #", "#  #", "####"]);
}

#[test]
fn single_open_room_block() {
    let lab = FlatLabyrinth::<(), ()>::new(1, 1, false);
    let surface = TextSurface::create_and_draw(&lab.view());
    assert_eq!(lines(&surface), vec!["#  #", "    ", "    ", "#  #"]);
}

#[test]
fn end_to_end_seeded_maze() {
    let mut lab = FlatLabyrinth::<(), ()>::new(6, 4, true);
    let mut chooser = Chooser::Seeded(12345);
    carve(&mut lab, &mut chooser);
    let surface = TextSurface::create_and_draw(&lab.view());
    assert_eq!(surface.width(), 24);
    assert_eq!(surface.height(), 16);
    let expected = vec![
        "########################",
        "#  ##                  #",
        "#  ##                  #",
        "#  ##  ##  ##########  #",
        "#  ##  ##  ##########  #",
        "#      ##          ##  #",
        "#      ##          ##  #",
        "#############  ##  ##  #",
        "#############  ##  ##  #",
        "#          ##  ##  ##  #",
        "#          ##  ##  ##  #",
        "#  ######  ######  ##  #",
        "#  ######  ######  ##  #",
        "#  ##              ##  #",
        "#  ##              ##  #",
        "########################",
    ];
    assert_eq!(lines(&surface), expected);
}

#[test]
fn room_view_wall_list() {
    let view = RoomView::new(&vec![Direction::North, Direction::West]);
    assert!(view.north);
    assert!(view.west);
    assert!(!view.east);
    assert!(!view.south);
    let empty = RoomView::new(&Vec::new());
    assert!(!empty.north && !empty.east && !empty.south && !empty.west);
}

#[test]
fn labyrinth_view_layout() {
    let rooms = vec![
        RoomView { north: false, east: false, south: false, west: false },
        RoomView { north: true, east: true, south: true, west: true },
    ];
    let view = LabyrinthView::new(2, 1, rooms);
    assert_eq!(view.room_index(Point(0, 0)), 0);
    assert_eq!(view.room_index(Point(1, 0)), 1);
    let surface = TextSurface::create_and_draw(&view);
    assert_eq!(surface.width(), 8);
    assert_eq!(surface.height(), 4);
    assert_eq!(lines(&surface), vec!["#  #####", "    #  #", "    #  #", "#  #####"]);
}

#[test]
fn surface_set_and_rows() {
    let mut surface = TextSurface::new(3, 2);
    assert_eq!(lines(&surface), vec!["   ", "   "]);
    surface.set(Point(0, 0), 'a');
    surface.set(Point(2, 1), 'b');
    // row 0 is the bottom row, so it is emitted last
    assert_eq!(lines(&surface), vec!["  b", "a  "]);
}

#[test]
fn focus_composes_offsets() {
    let mut surface = TextSurface::new(4, 4);
    let focus = surface.get_focus();
    focus.set(&mut surface, Point(0, 0), 'x');
    let sub = focus.focus(Offset(2, 1), Point(2, 2));
    sub.set(&mut surface, Point(0, 0), 'y');
    sub.set(&mut surface, Point(1, 1), 'z');
    assert_eq!(lines(&surface), vec!["    ", "   z", "  y ", "x   "]);
}
