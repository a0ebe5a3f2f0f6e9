//! Immutable snapshots of a labyrinth and their rendering.
//!
//! A `RoomView` records which of a room's four edges are walled; a
//! `LabyrinthView` is a row-major list of room views.  Both know how to draw
//! themselves on a character canvas: a room occupies a square cell of
//! `ROOM_EDGE_LENGTH` x `ROOM_EDGE_LENGTH` characters whose four corners are
//! always marked and whose walled edges are drawn as full lines of `'#'`.

use crate::geometry::Direction;
use crate::geometry::Offset;
use crate::geometry::Point;
use crate::geometry::Transform;
use crate::text_display::TextDisplayable;
use crate::text_display::TextSurface;
use crate::text_display::TextSurfaceFocus;
use vstd::prelude::*;

verus! {

/// The edge length, in canvas cells, of one rendered room.
pub const ROOM_EDGE_LENGTH: usize = 4;

/// The wall set of a single room, as seen at snapshot time.
#[derive(Clone, Copy, PartialEq, Eq, Debug, Structural)]
pub struct RoomView {
    pub north: bool,
    pub east: bool,
    pub south: bool,
    pub west: bool,
}

impl RoomView {
    /// Whether the snapshot shows a wall towards `d`.
    pub open spec fn has_wall_spec(self, d: Direction) -> bool {
        match d {
            Direction::North => self.north,
            Direction::East => self.east,
            Direction::South => self.south,
            Direction::West => self.west,
        }
    }

    /// The room's stamp: which cell of its square gets a `'#'`.  The four
    /// corners are always marked; the two inner cells of an edge are marked
    /// exactly when that edge is walled.
    pub open spec fn mark_at(self, x: int, y: int) -> bool {
        ||| ((x == 0 || x == ROOM_EDGE_LENGTH - 1) && (y == 0 || y == ROOM_EDGE_LENGTH - 1))
        ||| (self.south && y == 0 && 1 <= x <= ROOM_EDGE_LENGTH - 2)
        ||| (self.east && x == ROOM_EDGE_LENGTH - 1 && 1 <= y <= ROOM_EDGE_LENGTH - 2)
        ||| (self.north && y == ROOM_EDGE_LENGTH - 1 && 1 <= x <= ROOM_EDGE_LENGTH - 2)
        ||| (self.west && x == 0 && 1 <= y <= ROOM_EDGE_LENGTH - 2)
    }

    /// Builds a room view whose walled directions are exactly those listed
    /// in `wall_list`.
    pub fn new(wall_list: &Vec<Direction>) -> (r: RoomView)
        ensures
            forall|d: Direction| #[trigger] r.has_wall_spec(d) <==> wall_list@.contains(d),
    {
        let mut r = RoomView { north: false, east: false, south: false, west: false };
        let mut i: usize = 0;
        while i < wall_list.len()
            invariant
                i <= wall_list@.len(),
                forall|d: Direction| #[trigger] r.has_wall_spec(d) <==> exists|j: int|
                    0 <= j < i && wall_list@[j] == d,
            decreases wall_list@.len() - i,
        {
            let ghost r0 = r;
            match wall_list[i] {
                Direction::North => r.north = true,
                Direction::East => r.east = true,
                Direction::South => r.south = true,
                Direction::West => r.west = true,
            }
            proof {
                let dd = wall_list@[i as int];
                assert forall|d: Direction| #[trigger] r.has_wall_spec(d) <==> exists|j: int|
                    0 <= j < i + 1 && wall_list@[j] == d by {
                    if r.has_wall_spec(d) {
                        if d == dd {
                            assert(0 <= i < i + 1 && wall_list@[i as int] == d);
                        } else {
                            assert(r0.has_wall_spec(d));
                            let j = choose|j: int| 0 <= j < i && wall_list@[j] == d;
                            assert(0 <= j < i + 1 && wall_list@[j] == d);
                        }
                    }
                    if exists|j: int| 0 <= j < i + 1 && wall_list@[j] == d {
                        let j = choose|j: int| 0 <= j < i + 1 && wall_list@[j] == d;
                        if j == i {
                            assert(d == dd);
                            assert(r.has_wall_spec(d));
                        } else {
                            assert(0 <= j < i && wall_list@[j] == d);
                            assert(r0.has_wall_spec(d));
                            assert(r.has_wall_spec(d));
                        }
                    }
                }
            }
            i = i + 1;
        }
        proof {
            assert forall|d: Direction| #[trigger] r.has_wall_spec(d) <==> wall_list@.contains(
                d,
            ) by {
                if wall_list@.contains(d) {
                    let j = choose|j: int| 0 <= j < wall_list@.len() && wall_list@[j] == d;
                    assert(0 <= j < i && wall_list@[j] == d);
                }
            }
        }
        r
    }
}

impl TextDisplayable for RoomView {
    open spec fn inv_spec(&self) -> bool {
        true
    }

    open spec fn size_spec(&self) -> Point {
        Point(ROOM_EDGE_LENGTH, ROOM_EDGE_LENGTH)
    }

    open spec fn mark_spec(&self, x: int, y: int) -> bool {
        self.mark_at(x, y)
    }

    fn size(&self) -> (r: Point) {
        Point(ROOM_EDGE_LENGTH, ROOM_EDGE_LENGTH)
    }

    fn display(&self, surface: &mut TextSurface, focus: TextSurfaceFocus) {
        let t_north = Transform::new(ROOM_EDGE_LENGTH, Direction::North);
        focus.set(surface, t_north.apply(Point(0, 0)), '#');
        if self.north {
            focus.set(surface, t_north.apply(Point(1, 0)), '#');
            focus.set(surface, t_north.apply(Point(2, 0)), '#');
        }
        let t_east = Transform::new(ROOM_EDGE_LENGTH, Direction::East);
        focus.set(surface, t_east.apply(Point(0, 0)), '#');
        if self.east {
            focus.set(surface, t_east.apply(Point(1, 0)), '#');
            focus.set(surface, t_east.apply(Point(2, 0)), '#');
        }
        let t_south = Transform::new(ROOM_EDGE_LENGTH, Direction::South);
        focus.set(surface, t_south.apply(Point(0, 0)), '#');
        if self.south {
            focus.set(surface, t_south.apply(Point(1, 0)), '#');
            focus.set(surface, t_south.apply(Point(2, 0)), '#');
        }
        let t_west = Transform::new(ROOM_EDGE_LENGTH, Direction::West);
        focus.set(surface, t_west.apply(Point(0, 0)), '#');
        if self.west {
            focus.set(surface, t_west.apply(Point(1, 0)), '#');
            focus.set(surface, t_west.apply(Point(2, 0)), '#');
        }
    }
}

/// A read-only, row-major snapshot of a whole labyrinth's wall state.
pub struct LabyrinthView {
    pub width: usize,
    pub height: usize,
    pub rooms: Vec<RoomView>,
}

impl LabyrinthView {
    /// The room list matches the dimensions, and a rendered canvas of the
    /// snapshot fits in machine limits.
    pub open spec fn wf(self) -> bool {
        &&& self.rooms@.len() == self.width * self.height
        &&& self.width * ROOM_EDGE_LENGTH <= usize::MAX
        &&& self.height * ROOM_EDGE_LENGTH <= usize::MAX
    }

    /// The view of the room in column `i`, row `j`.
    pub open spec fn room_at(self, i: int, j: int) -> RoomView {
        self.rooms@[j * self.width + i]
    }

    /// Assembles a snapshot from dimensions and a row-major room list.  The
    /// list must hold exactly one view per room.
    pub fn new(width: usize, height: usize, rooms: Vec<RoomView>) -> (r: LabyrinthView)
        requires
            width * height == rooms@.len(),
            width * ROOM_EDGE_LENGTH <= usize::MAX,
            height * ROOM_EDGE_LENGTH <= usize::MAX,
        ensures
            r.wf(),
            r.width == width,
            r.height == height,
            r.rooms == rooms,
    {
        LabyrinthView { width, height, rooms }
    }

    /// The index of room `(x, y)` in the row-major room list.
    pub fn room_index(&self, p: Point) -> (r: usize)
        requires
            self.wf(),
            p.0 < self.width,
            p.1 < self.height,
        ensures
            r == p.1 * self.width + p.0,
            r < self.rooms@.len(),
    {
        proof {
            assert(self.rooms.len() <= usize::MAX);
            assert(p.1 * self.width + p.0 < self.width * self.height) by (nonlinear_arith)
                requires
                    p.0 < self.width,
                    p.1 < self.height,
            ;
        }
        p.1 * self.width + p.0
    }
}

impl TextDisplayable for LabyrinthView {
    open spec fn inv_spec(&self) -> bool {
        self.wf()
    }

    open spec fn size_spec(&self) -> Point {
        Point(
            (self.width * ROOM_EDGE_LENGTH) as usize,
            (self.height * ROOM_EDGE_LENGTH) as usize,
        )
    }

    /// A canvas point belongs to the cell of the room at column `x / 4`,
    /// row `y / 4`, and is marked as that room's stamp says.
    open spec fn mark_spec(&self, x: int, y: int) -> bool {
        self.room_at(x / (ROOM_EDGE_LENGTH as int), y / (ROOM_EDGE_LENGTH as int)).mark_at(
            x % (ROOM_EDGE_LENGTH as int),
            y % (ROOM_EDGE_LENGTH as int),
        )
    }

    fn size(&self) -> (r: Point) {
        Point(self.width * ROOM_EDGE_LENGTH, self.height * ROOM_EDGE_LENGTH)
    }

    fn display(&self, surface: &mut TextSurface, focus: TextSurfaceFocus) {
        let ghost surface0 = *surface;
        let mut i: usize = 0;
        while i < self.width
            invariant
                self.wf(),
                i <= self.width,
                focus.bound == self.size_spec(),
                surface.wf(),
                surface.width_spec() == surface0.width_spec(),
                surface.height_spec() == surface0.height_spec(),
                focus.valid_for(*surface),
                focus.valid_for(surface0),
                forall|x: int, y: int|
                    0 <= x < ROOM_EDGE_LENGTH * i && 0 <= y < focus.bound.1
                        ==> #[trigger] surface.at(focus.offset.0 + x, focus.offset.1 + y) == (
                    if self.mark_spec(x, y) {
                        '#'
                    } else {
                        surface0.at(focus.offset.0 + x, focus.offset.1 + y)
                    }),
                forall|x: int, y: int|
                    ROOM_EDGE_LENGTH * i <= x < focus.bound.0 && 0 <= y < focus.bound.1
                        ==> #[trigger] surface.at(focus.offset.0 + x, focus.offset.1 + y)
                        == surface0.at(focus.offset.0 + x, focus.offset.1 + y),
                forall|x: int, y: int|
                    0 <= x < surface0.width_spec() && 0 <= y < surface0.height_spec()
                        && !focus.covers(x, y) ==> #[trigger] surface.at(x, y) == surface0.at(
                        x,
                        y,
                    ),
            decreases self.width - i,
        {
            proof {
                assert(i * ROOM_EDGE_LENGTH + ROOM_EDGE_LENGTH <= self.width * ROOM_EDGE_LENGTH)
                    by (nonlinear_arith)
                    requires
                        i < self.width,
                ;
            }
            let mut j: usize = 0;
            while j < self.height
                invariant
                    self.wf(),
                    i < self.width,
                    j <= self.height,
                    focus.bound == self.size_spec(),
                    surface.wf(),
                    surface.width_spec() == surface0.width_spec(),
                    surface.height_spec() == surface0.height_spec(),
                    focus.valid_for(*surface),
                    focus.valid_for(surface0),
                    forall|x: int, y: int|
                        0 <= x < ROOM_EDGE_LENGTH * i && 0 <= y < focus.bound.1
                            ==> #[trigger] surface.at(focus.offset.0 + x, focus.offset.1 + y) == (
                        if self.mark_spec(x, y) {
                            '#'
                        } else {
                            surface0.at(focus.offset.0 + x, focus.offset.1 + y)
                        }),
                    forall|x: int, y: int|
                        ROOM_EDGE_LENGTH * i <= x < ROOM_EDGE_LENGTH * (i + 1) && 0 <= y
                            < ROOM_EDGE_LENGTH * j
                            ==> #[trigger] surface.at(focus.offset.0 + x, focus.offset.1 + y) == (
                        if self.mark_spec(x, y) {
                            '#'
                        } else {
                            surface0.at(focus.offset.0 + x, focus.offset.1 + y)
                        }),
                    forall|x: int, y: int|
                        ROOM_EDGE_LENGTH * i <= x < focus.bound.0 && 0 <= y < focus.bound.1 && !(x
                            < ROOM_EDGE_LENGTH * (i + 1) && y < ROOM_EDGE_LENGTH * j)
                            ==> #[trigger] surface.at(focus.offset.0 + x, focus.offset.1 + y)
                            == surface0.at(focus.offset.0 + x, focus.offset.1 + y),
                    forall|x: int, y: int|
                        0 <= x < surface0.width_spec() && 0 <= y < surface0.height_spec()
                            && !focus.covers(x, y) ==> #[trigger] surface.at(x, y) == surface0.at(
                            x,
                            y,
                        ),
                decreases self.height - j,
            {
                proof {
                    assert(j * ROOM_EDGE_LENGTH + ROOM_EDGE_LENGTH <= self.height
                        * ROOM_EDGE_LENGTH) by (nonlinear_arith)
                        requires
                            j < self.height,
                    ;
                    assert(i * ROOM_EDGE_LENGTH + ROOM_EDGE_LENGTH <= self.width
                        * ROOM_EDGE_LENGTH) by (nonlinear_arith)
                        requires
                            i < self.width,
                    ;
                }
                proof {
                    assert(surface.data.len() <= usize::MAX);
                }
                let ix = self.room_index(Point(i, j));
                let sub = focus.focus(
                    Offset(i * ROOM_EDGE_LENGTH, j * ROOM_EDGE_LENGTH),
                    Point(ROOM_EDGE_LENGTH, ROOM_EDGE_LENGTH),
                );
                let ghost before = *surface;
                let room = self.rooms[ix];
                room.display(surface, sub);
                proof {
                    let off_x = focus.offset.0 as int;
                    let off_y = focus.offset.1 as int;
                    assert forall|x: int, y: int|
                        ROOM_EDGE_LENGTH * i <= x < ROOM_EDGE_LENGTH * (i + 1) && 0 <= y
                            < ROOM_EDGE_LENGTH * (j + 1)
                            implies #[trigger] surface.at(off_x + x, off_y + y) == (
                        if self.mark_spec(x, y) {
                            '#'
                        } else {
                            surface0.at(off_x + x, off_y + y)
                        }) by {
                        let le = ROOM_EDGE_LENGTH as int;
                        assert(le == 4);
                        let rx = x - le * i;
                        let ry = y - le * j;
                        if ROOM_EDGE_LENGTH * j <= y {
                            // the cell just drawn by `room`
                            assert(0 <= rx < 4 && 0 <= ry < 4);
                            assert(surface.at(sub.offset.0 + rx, sub.offset.1 + ry) == (
                            if room.mark_spec(rx, ry) {
                                '#'
                            } else {
                                before.at(sub.offset.0 + rx, sub.offset.1 + ry)
                            }));
                            assert(x / le == i && x % le == rx) by (nonlinear_arith)
                                requires
                                    le == 4,
                                    le * i <= x < le * (i + 1),
                                    rx == x - le * i,
                                    0 <= i,
                            ;
                            assert(y / le == j && y % le == ry) by (nonlinear_arith)
                                requires
                                    le == 4,
                                    le * j <= y < le * (j + 1),
                                    ry == y - le * j,
                                    0 <= j,
                            ;
                            assert(self.mark_spec(x, y) == room.mark_at(rx, ry));
                            assert(!sub.covers(off_x + x, off_y + y) ==> before.at(
                                off_x + x,
                                off_y + y,
                            ) == surface0.at(off_x + x, off_y + y));
                        } else {
                            // a cell of an earlier row of this column, untouched now
                            assert(!sub.covers(off_x + x, off_y + y));
                        }
                    }
                }
                j = j + 1;
            }
            proof {
                assert forall|x: int, y: int|
                    0 <= x < ROOM_EDGE_LENGTH * (i + 1) && 0 <= y < focus.bound.1
                        implies #[trigger] surface.at(focus.offset.0 + x, focus.offset.1 + y) == (
                    if self.mark_spec(x, y) {
                        '#'
                    } else {
                        surface0.at(focus.offset.0 + x, focus.offset.1 + y)
                    }) by {
                    assert(focus.bound.1 == self.height * ROOM_EDGE_LENGTH);
                }
            }
            i = i + 1;
        }
        proof {
            assert forall|x: int, y: int|
                0 <= x < focus.bound.0 && 0 <= y < focus.bound.1
                    implies #[trigger] surface.at(focus.offset.0 + x, focus.offset.1 + y) == (
            if self.mark_spec(x, y) {
                '#'
            } else {
                surface0.at(focus.offset.0 + x, focus.offset.1 + y)
            }) by {
                assert(focus.bound.0 == self.width * ROOM_EDGE_LENGTH);
            }
        }
    }
}

} // verus!
