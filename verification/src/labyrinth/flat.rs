//! The dense grid labyrinth.
//!
//! Rooms live in a row-major `Vec`, addressed by `Point(x, y)` with
//! `0 <= x < width`, `0 <= y < height`.  Each room holds a payload and, per
//! direction, an optional wall payload; an absent wall means the edge is
//! open.  The wall between two adjacent rooms is one logical entity: the
//! symmetry invariant says both rooms always agree on it, and every mutation
//! updates both sides in one transaction.

use crate::geometry::Direction;
use crate::geometry::Point;
use crate::labyrinth::WallError;
use crate::views::LabyrinthView;
use crate::views::RoomView;
use crate::views::ROOM_EDGE_LENGTH;
use vstd::prelude::*;

verus! {

/// The x coordinate of the room one step towards `d`.
pub open spec fn nbr_x(x: int, d: Direction) -> int {
    match d {
        Direction::East => x + 1,
        Direction::West => x - 1,
        _ => x,
    }
}

/// The y coordinate of the room one step towards `d`.
pub open spec fn nbr_y(y: int, d: Direction) -> int {
    match d {
        Direction::North => y + 1,
        Direction::South => y - 1,
        _ => y,
    }
}

/// The per-direction optional wall payloads of one room.
pub struct Walls<W> {
    pub north: Option<W>,
    pub east: Option<W>,
    pub south: Option<W>,
    pub west: Option<W>,
}

impl<W> Walls<W> {
    /// The payload slot facing `d`.
    pub open spec fn get_spec(self, d: Direction) -> Option<W> {
        match d {
            Direction::North => self.north,
            Direction::East => self.east,
            Direction::South => self.south,
            Direction::West => self.west,
        }
    }

    /// Whether a wall is present towards `d`.
    pub fn has(&self, d: Direction) -> (r: bool)
        ensures
            r == self.get_spec(d).is_some(),
    {
        match d {
            Direction::North => self.north.is_some(),
            Direction::East => self.east.is_some(),
            Direction::South => self.south.is_some(),
            Direction::West => self.west.is_some(),
        }
    }

    /// Borrows the payload slot facing `d`.
    pub fn get(&self, d: Direction) -> (r: &Option<W>)
        ensures
            *r == self.get_spec(d),
    {
        match d {
            Direction::North => &self.north,
            Direction::East => &self.east,
            Direction::South => &self.south,
            Direction::West => &self.west,
        }
    }

    /// Replaces the payload slot facing `d`.
    pub fn set(&mut self, d: Direction, v: Option<W>)
        ensures
            final(self).get_spec(d) == v,
            forall|e: Direction| e != d ==> #[trigger] final(self).get_spec(e) == old(
                self,
            ).get_spec(e),
    {
        match d {
            Direction::North => self.north = v,
            Direction::East => self.east = v,
            Direction::South => self.south = v,
            Direction::West => self.west = v,
        }
    }
}

/// One room of the grid: its payload and its four wall slots.
pub struct Room<R, W> {
    pub room_info: R,
    pub walls: Walls<W>,
}

impl<R, W> Room<R, W> {
    /// A fresh room, fully walled or fully open.
    pub fn new(all_walls: bool) -> (r: Room<R, W>) where R: Default, W: Default
        ensures
            forall|d: Direction| #[trigger] r.walls.get_spec(d).is_some() == all_walls,
    {
        let walls = if all_walls {
            Walls {
                north: Some(W::default()),
                east: Some(W::default()),
                south: Some(W::default()),
                west: Some(W::default()),
            }
        } else {
            Walls { north: None, east: None, south: None, west: None }
        };
        Room { room_info: R::default(), walls }
    }
}

/// A labyrinth over a dense rectangular grid of rooms.
pub struct FlatLabyrinth<R, W> {
    pub width: usize,
    pub height: usize,
    pub rooms: Vec<Room<R, W>>,
}

impl<R, W> FlatLabyrinth<R, W> {
    /// The room list matches the grid dimensions.
    pub open spec fn wf(self) -> bool {
        self.rooms@.len() == self.width * self.height
    }

    /// Whether `(x, y)` addresses a room of the grid.
    pub open spec fn valid_room(self, x: int, y: int) -> bool {
        0 <= x < self.width && 0 <= y < self.height
    }

    /// Whether the point addresses a room of the grid.
    pub open spec fn valid_point(self, p: Point) -> bool {
        self.valid_room(p.0 as int, p.1 as int)
    }

    /// The row-major index of room `(x, y)`.
    pub open spec fn room_idx(self, x: int, y: int) -> int {
        y * self.width + x
    }

    /// The payload slot of the wall of room `(x, y)` towards `d`.
    pub open spec fn wall_data_at(self, x: int, y: int, d: Direction) -> Option<W> {
        self.rooms@[self.room_idx(x, y)].walls.get_spec(d)
    }

    /// Whether room `(x, y)` has a wall towards `d`.
    pub open spec fn wall_at(self, x: int, y: int, d: Direction) -> bool {
        self.wall_data_at(x, y, d).is_some()
    }

    /// The payload of room `(x, y)`.
    pub open spec fn room_info_at(self, x: int, y: int) -> R {
        self.rooms@[self.room_idx(x, y)].room_info
    }

    /// Whether room `(x, y)` has a neighbouring room towards `d` (no
    /// wraparound: boundary rooms lack one).
    pub open spec fn has_neighbour(self, x: int, y: int, d: Direction) -> bool {
        match d {
            Direction::North => y + 1 != self.height,
            Direction::East => x + 1 != self.width,
            Direction::South => y != 0,
            Direction::West => x != 0,
        }
    }

    /// The wall symmetry invariant: two adjacent rooms always agree on the
    /// wall between them.
    pub open spec fn symmetric(self) -> bool {
        forall|x: int, y: int, d: Direction|
            self.valid_room(x, y) && self.has_neighbour(x, y, d) ==> #[trigger] self.wall_at(
                x,
                y,
                d,
            ) == self.wall_at(nbr_x(x, d), nbr_y(y, d), d.flip_spec())
    }

    /// A well-formed, symmetric labyrinth.
    pub open spec fn inv(self) -> bool {
        self.wf() && self.symmetric()
    }

    /// Every room is walled in all four directions.
    pub open spec fn fully_walled(self) -> bool {
        forall|x: int, y: int, d: Direction|
            self.valid_room(x, y) ==> #[trigger] self.wall_at(x, y, d)
    }

    /// A valid room's index lies inside the room list.
    pub proof fn lemma_room_idx_bounds(self, x: int, y: int)
        requires
            self.wf(),
            self.valid_room(x, y),
        ensures
            0 <= self.room_idx(x, y) < self.rooms@.len(),
    {
        assert(0 <= y * self.width + x < self.width * self.height) by (nonlinear_arith)
            requires
                0 <= x < self.width,
                0 <= y < self.height,
        ;
    }

    /// Row-major indexing is invertible on valid rooms.
    pub proof fn lemma_room_idx_inverse(self, x: int, y: int)
        requires
            self.wf(),
            self.valid_room(x, y),
        ensures
            0 <= self.room_idx(x, y) < self.rooms@.len(),
            self.room_idx(x, y) % (self.width as int) == x,
            self.room_idx(x, y) / (self.width as int) == y,
    {
        self.lemma_room_idx_bounds(x, y);
        vstd::arithmetic::div_mod::lemma_fundamental_div_mod_converse(
            y * self.width + x,
            self.width as int,
            y,
            x,
        );
    }

    /// Every index of the room list addresses a valid room.
    pub proof fn lemma_index_coords(self, i: int)
        requires
            self.wf(),
            self.width >= 1,
            0 <= i < self.rooms@.len(),
        ensures
            self.valid_room(i % (self.width as int), i / (self.width as int)),
            self.room_idx(i % (self.width as int), i / (self.width as int)) == i,
    {
        let w = self.width as int;
        let h = self.height as int;
        assert(0 <= i % w < w && 0 <= i / w < h && (i / w) * w + i % w == i) by (nonlinear_arith)
            requires
                w >= 1,
                0 <= i < w * h,
        ;
    }

    /// The neighbour relation is symmetric: stepping towards `d` and then
    /// towards its flip leads back.
    pub proof fn lemma_neighbour_symmetric(self, x: int, y: int, d: Direction)
        requires
            self.valid_room(x, y),
            self.has_neighbour(x, y, d),
        ensures
            self.valid_room(nbr_x(x, d), nbr_y(y, d)),
            self.has_neighbour(nbr_x(x, d), nbr_y(y, d), d.flip_spec()),
            nbr_x(nbr_x(x, d), d.flip_spec()) == x,
            nbr_y(nbr_y(y, d), d.flip_spec()) == y,
    {
    }

    /// A two-sided wall update that keeps both ends in agreement preserves
    /// the symmetry invariant.
    proof fn lemma_symmetric_after_pair_update(pre: Self, post: Self, px: int, py: int, d: Direction)
        requires
            pre.wf(),
            post.wf(),
            post.width == pre.width,
            post.height == pre.height,
            pre.symmetric(),
            pre.valid_room(px, py),
            pre.has_neighbour(px, py, d),
            post.wall_at(px, py, d) == post.wall_at(nbr_x(px, d), nbr_y(py, d), d.flip_spec()),
            forall|x: int, y: int, e: Direction|
                pre.valid_room(x, y) && !(x == px && y == py && e == d) && !(x == nbr_x(px, d) && y
                    == nbr_y(py, d) && e == d.flip_spec()) ==> #[trigger] post.wall_at(x, y, e)
                    == pre.wall_at(x, y, e),
        ensures
            post.symmetric(),
    {
        let qx = nbr_x(px, d);
        let qy = nbr_y(py, d);
        let f = d.flip_spec();
        pre.lemma_neighbour_symmetric(px, py, d);
        d.lemma_flip_involution();
        assert forall|x: int, y: int, e: Direction|
            post.valid_room(x, y) && post.has_neighbour(x, y, e) implies #[trigger] post.wall_at(
            x,
            y,
            e,
        ) == post.wall_at(nbr_x(x, e), nbr_y(y, e), e.flip_spec()) by {
            pre.lemma_neighbour_symmetric(x, y, e);
            e.lemma_flip_involution();
            let bx = nbr_x(x, e);
            let by = nbr_y(y, e);
            let ef = e.flip_spec();
            assert(pre.wall_at(x, y, e) == pre.wall_at(bx, by, ef));
            if x == px && y == py && e == d {
            } else if x == qx && y == qy && e == f {
            } else {
                assert(post.wall_at(x, y, e) == pre.wall_at(x, y, e));
                if bx == px && by == py && ef == d {
                    assert(x == qx && y == qy && e == f);
                } else if bx == qx && by == qy && ef == f {
                    assert(x == px && y == py && e == d);
                } else {
                    assert(post.wall_at(bx, by, ef) == pre.wall_at(bx, by, ef));
                }
            }
        }
    }

    /// The row-major index of a valid room, as an executable value.
    pub fn coord_to_index(&self, p: Point) -> (r: usize)
        requires
            self.wf(),
            self.valid_point(p),
        ensures
            r == self.room_idx(p.0 as int, p.1 as int),
            r < self.rooms@.len(),
    {
        proof {
            self.lemma_room_idx_bounds(p.0 as int, p.1 as int);
            assert(self.rooms.len() <= usize::MAX);
        }
        p.1 * self.width + p.0
    }

    /// Allocates a `width` x `height` grid, every room fully walled when
    /// `all_walls` is set and fully open otherwise.
    pub fn new(width: usize, height: usize, all_walls: bool) -> (r: FlatLabyrinth<R, W>) where
        R: Default,
        W: Default,

        requires
            width * height <= usize::MAX,
        ensures
            r.inv(),
            r.width == width,
            r.height == height,
            all_walls ==> r.fully_walled(),
            forall|x: int, y: int, d: Direction|
                r.valid_room(x, y) ==> #[trigger] r.wall_at(x, y, d) == all_walls,
    {
        let size = width * height;
        let mut rooms: Vec<Room<R, W>> = Vec::new();
        let mut k: usize = 0;
        while k < size
            invariant
                k <= size,
                rooms@.len() == k,
                forall|i: int, d: Direction|
                    0 <= i < k ==> #[trigger] rooms@[i].walls.get_spec(d).is_some() == all_walls,
            decreases size - k,
        {
            rooms.push(Room::new(all_walls));
            k = k + 1;
        }
        let r = FlatLabyrinth { width, height, rooms };
        proof {
            assert forall|x: int, y: int, d: Direction|
                r.valid_room(x, y) implies #[trigger] r.wall_at(x, y, d) == all_walls by {
                r.lemma_room_idx_bounds(x, y);
            }
            assert forall|x: int, y: int, d: Direction|
                r.valid_room(x, y) && r.has_neighbour(x, y, d) implies #[trigger] r.wall_at(
                x,
                y,
                d,
            ) == r.wall_at(nbr_x(x, d), nbr_y(y, d), d.flip_spec()) by {
                r.lemma_neighbour_symmetric(x, y, d);
            }
        }
        r
    }

    /// Some valid room to start from.  The grid picks a fixed anchor, the
    /// origin; callers must not rely on any statistical randomness here.
    pub fn random_room(&self) -> (r: Point)
        requires
            1 <= self.width,
            1 <= self.height,
        ensures
            r == (Point(0, 0)),
            self.valid_point(r),
    {
        Point(0, 0)
    }

    /// The adjacent room towards `dir`, or nothing exactly when `room` sits
    /// on that boundary of the grid.
    pub fn get_neighbour(&self, room: Point, dir: Direction) -> (r: Option<Point>)
        requires
            self.valid_point(room),
        ensures
            r.is_some() == self.has_neighbour(room.0 as int, room.1 as int, dir),
            r.is_some() ==> r == Some(
                Point(nbr_x(room.0 as int, dir) as usize, nbr_y(room.1 as int, dir) as usize),
            ),
            r.is_some() ==> self.valid_point(r.unwrap()),
            r.is_none() <==> ((dir == Direction::North && room.1 + 1 == self.height) || (dir
                == Direction::East && room.0 + 1 == self.width) || (dir == Direction::South
                && room.1 == 0) || (dir == Direction::West && room.0 == 0)),
    {
        let Point(x, y) = room;
        match dir {
            Direction::North => {
                if y + 1 == self.height {
                    None
                } else {
                    Some(Point(x, y + 1))
                }
            },
            Direction::East => {
                if x + 1 == self.width {
                    None
                } else {
                    Some(Point(x + 1, y))
                }
            },
            Direction::South => {
                if y == 0 {
                    None
                } else {
                    Some(Point(x, y - 1))
                }
            },
            Direction::West => {
                if x == 0 {
                    None
                } else {
                    Some(Point(x - 1, y))
                }
            },
        }
    }

    /// Borrows the payload of a room.
    pub fn room(&self, room: Point) -> (r: &R)
        requires
            self.wf(),
            self.valid_point(room),
        ensures
            *r == self.room_info_at(room.0 as int, room.1 as int),
    {
        let ix = self.coord_to_index(room);
        &self.rooms[ix].room_info
    }

    /// Replaces the payload of a room; walls and every other room are left
    /// untouched.
    pub fn set_room(&mut self, room: Point, value: R)
        requires
            old(self).wf(),
            old(self).valid_point(room),
        ensures
            final(self).wf(),
            final(self).width == old(self).width,
            final(self).height == old(self).height,
            final(self).room_info_at(room.0 as int, room.1 as int) == value,
            forall|x: int, y: int|
                old(self).valid_room(x, y) && !(x == room.0 && y == room.1)
                    ==> #[trigger] final(self).room_info_at(x, y) == old(self).room_info_at(x, y),
            forall|x: int, y: int, d: Direction|
                old(self).valid_room(x, y) ==> #[trigger] final(self).wall_data_at(x, y, d) == old(
                    self,
                ).wall_data_at(x, y, d),
            old(self).inv() ==> final(self).inv(),
    {
        let ix = self.coord_to_index(room);
        let ghost pre = *self;
        let r = &mut self.rooms[ix];
        r.room_info = value;
        proof {
            let px = room.0 as int;
            let py = room.1 as int;
            assert forall|x: int, y: int|
                pre.valid_room(x, y) && !(x == px && y == py) implies #[trigger] self.room_info_at(
                x,
                y,
            ) == pre.room_info_at(x, y) by {
                pre.lemma_room_idx_inverse(x, y);
                pre.lemma_room_idx_inverse(px, py);
            }
            assert forall|x: int, y: int, d: Direction|
                pre.valid_room(x, y) implies #[trigger] self.wall_data_at(x, y, d)
                == pre.wall_data_at(x, y, d) by {
                pre.lemma_room_idx_inverse(x, y);
                pre.lemma_room_idx_inverse(px, py);
            }
            if pre.inv() {
                assert forall|x: int, y: int, e: Direction|
                    self.valid_room(x, y) && self.has_neighbour(x, y, e)
                        implies #[trigger] self.wall_at(x, y, e) == self.wall_at(
                    nbr_x(x, e),
                    nbr_y(y, e),
                    e.flip_spec(),
                ) by {
                    pre.lemma_neighbour_symmetric(x, y, e);
                    assert(pre.wall_at(x, y, e) == pre.wall_at(nbr_x(x, e), nbr_y(y, e), e.flip_spec()));
                }
            }
        }
    }

    /// Whether the edge of `room` towards `dir` is blocked by a wall.
    pub fn has_wall(&self, room: Point, dir: Direction) -> (r: bool)
        requires
            self.wf(),
            self.valid_point(room),
        ensures
            r == self.wall_at(room.0 as int, room.1 as int, dir),
    {
        let ix = self.coord_to_index(room);
        self.rooms[ix].walls.has(dir)
    }

    /// Borrows the wall payload of `room` towards `dir`, when one is there.
    pub fn wall(&self, room: Point, dir: Direction) -> (r: Option<&W>)
        requires
            self.wf(),
            self.valid_point(room),
        ensures
            r.is_some() == self.wall_at(room.0 as int, room.1 as int, dir),
            r matches Some(w) ==> self.wall_data_at(room.0 as int, room.1 as int, dir) == Some(*w),
    {
        let ix = self.coord_to_index(room);
        self.rooms[ix].walls.get(dir).as_ref()
    }

    /// Replaces the payload of an existing wall; its presence, the opposite
    /// side's slot and every other wall are left untouched.
    pub fn set_wall(&mut self, room: Point, dir: Direction, value: W)
        requires
            old(self).wf(),
            old(self).valid_point(room),
            old(self).wall_at(room.0 as int, room.1 as int, dir),
        ensures
            final(self).wf(),
            final(self).width == old(self).width,
            final(self).height == old(self).height,
            final(self).wall_data_at(room.0 as int, room.1 as int, dir) == Some(value),
            forall|x: int, y: int, d: Direction|
                old(self).valid_room(x, y) && !(x == room.0 && y == room.1 && d == dir)
                    ==> #[trigger] final(self).wall_data_at(x, y, d) == old(self).wall_data_at(
                    x,
                    y,
                    d,
                ),
            forall|x: int, y: int|
                old(self).valid_room(x, y) ==> #[trigger] final(self).room_info_at(x, y) == old(
                    self,
                ).room_info_at(x, y),
            old(self).inv() ==> final(self).inv(),
    {
        let ix = self.coord_to_index(room);
        let ghost pre = *self;
        let r = &mut self.rooms[ix];
        r.walls.set(dir, Some(value));
        proof {
            let px = room.0 as int;
            let py = room.1 as int;
            assert forall|x: int, y: int, d: Direction|
                pre.valid_room(x, y) && !(x == px && y == py && d == dir)
                    implies #[trigger] self.wall_data_at(x, y, d) == pre.wall_data_at(x, y, d) by {
                pre.lemma_room_idx_inverse(x, y);
                pre.lemma_room_idx_inverse(px, py);
            }
            assert forall|x: int, y: int|
                pre.valid_room(x, y) implies #[trigger] self.room_info_at(x, y)
                == pre.room_info_at(x, y) by {
                pre.lemma_room_idx_inverse(x, y);
                pre.lemma_room_idx_inverse(px, py);
            }
            assert forall|x: int, y: int, d: Direction|
                pre.valid_room(x, y) implies #[trigger] self.wall_at(x, y, d) == pre.wall_at(
                x,
                y,
                d,
            ) by {
                pre.lemma_room_idx_inverse(x, y);
                pre.lemma_room_idx_inverse(px, py);
            }
            if pre.inv() {
                assert forall|x: int, y: int, e: Direction|
                    self.valid_room(x, y) && self.has_neighbour(x, y, e)
                        implies #[trigger] self.wall_at(x, y, e) == self.wall_at(
                    nbr_x(x, e),
                    nbr_y(y, e),
                    e.flip_spec(),
                ) by {
                    pre.lemma_neighbour_symmetric(x, y, e);
                    assert(pre.wall_at(x, y, e) == pre.wall_at(nbr_x(x, e), nbr_y(y, e), e.flip_spec()));
                }
            }
        }
    }
}


impl<R, W> FlatLabyrinth<R, W> {
    /// Whether room `(x, y)` has an open passage (a neighbour and no wall)
    /// towards `d`.
    pub open spec fn open_towards(self, x: int, y: int, d: Direction) -> bool {
        self.has_neighbour(x, y, d) && !self.wall_at(x, y, d)
    }

    /// How many of room `i`'s east and north passages are open.  Counting
    /// east and north only counts every passage of the grid exactly once.
    pub open spec fn room_open_count(self, i: int) -> int {
        let x = i % (self.width as int);
        let y = i / (self.width as int);
        (if self.open_towards(x, y, Direction::East) {
            1 as int
        } else {
            0
        }) + (if self.open_towards(x, y, Direction::North) {
            1 as int
        } else {
            0
        })
    }

    /// The open passages of the first `n` rooms.
    pub open spec fn open_count_upto(self, n: int) -> int
        decreases n,
    {
        if n <= 0 {
            0
        } else {
            self.open_count_upto(n - 1) + self.room_open_count(n - 1)
        }
    }

    /// The number of open passages of the whole grid.
    pub open spec fn open_count(self) -> int {
        self.open_count_upto(self.width * self.height)
    }

    /// Summing room open counts only differs where a room differs.
    proof fn lemma_open_count_upto_agree(pre: Self, post: Self, i0: int, n: int)
        requires
            forall|i: int|
                0 <= i < n && i != i0 ==> #[trigger] post.room_open_count(i)
                    == pre.room_open_count(i),
        ensures
            post.open_count_upto(n) == pre.open_count_upto(n) + (if 0 <= i0 < n {
                post.room_open_count(i0) - pre.room_open_count(i0)
            } else {
                0
            }),
        decreases n,
    {
        if n > 0 {
            Self::lemma_open_count_upto_agree(pre, post, i0, n - 1);
        }
    }

    /// A fully walled grid has no open passage among its first `n` rooms.
    proof fn lemma_fully_walled_upto(self, n: int)
        requires
            self.wf(),
            self.fully_walled(),
            self.width >= 1,
            0 <= n <= self.rooms@.len(),
        ensures
            self.open_count_upto(n) == 0,
        decreases n,
    {
        if n > 0 {
            self.lemma_fully_walled_upto(n - 1);
            self.lemma_index_coords(n - 1);
            let x = (n - 1) % (self.width as int);
            let y = (n - 1) / (self.width as int);
            assert(self.wall_at(x, y, Direction::East));
            assert(self.wall_at(x, y, Direction::North));
        }
    }

    /// A fully walled grid has no open passage at all.
    pub proof fn lemma_fully_walled_open_count(self)
        requires
            self.wf(),
            self.fully_walled(),
        ensures
            self.open_count() == 0,
    {
        if self.width == 0 || self.height == 0 {
            assert(self.width * self.height == 0) by (nonlinear_arith)
                requires
                    self.width == 0 || self.height == 0,
            ;
        } else {
            assert(0 <= self.width * self.height) by (nonlinear_arith)
                requires
                    self.width >= 1,
                    self.height >= 1,
            ;
            self.lemma_fully_walled_upto(self.width * self.height);
        }
    }

    /// Flipping the wall state of one edge (seen from both its sides, which
    /// agree before and after) changes the grid's open passage count by one.
    proof fn lemma_open_count_pair_change(pre: Self, post: Self, px: int, py: int, d: Direction)
        requires
            pre.wf(),
            post.wf(),
            post.width == pre.width,
            post.height == pre.height,
            pre.valid_room(px, py),
            pre.has_neighbour(px, py, d),
            forall|x: int, y: int, e: Direction|
                pre.valid_room(x, y) && !(x == px && y == py && e == d) && !(x == nbr_x(px, d) && y
                    == nbr_y(py, d) && e == d.flip_spec()) ==> #[trigger] post.wall_at(x, y, e)
                    == pre.wall_at(x, y, e),
            post.wall_at(px, py, d) == !pre.wall_at(px, py, d),
            post.wall_at(nbr_x(px, d), nbr_y(py, d), d.flip_spec()) == !pre.wall_at(
                nbr_x(px, d),
                nbr_y(py, d),
                d.flip_spec(),
            ),
            pre.wall_at(px, py, d) == pre.wall_at(nbr_x(px, d), nbr_y(py, d), d.flip_spec()),
        ensures
            post.open_count() == pre.open_count() + (if pre.wall_at(px, py, d) {
                1 as int
            } else {
                -1
            }),
    {
        let w = pre.width as int;
        let total = pre.width * pre.height;
        let qx = nbr_x(px, d);
        let qy = nbr_y(py, d);
        let f = d.flip_spec();
        pre.lemma_neighbour_symmetric(px, py, d);
        d.lemma_flip_involution();
        let cx: int = if d == Direction::East || d == Direction::North {
            px
        } else {
            qx
        };
        let cy: int = if d == Direction::East || d == Direction::North {
            py
        } else {
            qy
        };
        let cd: Direction = if d == Direction::East || d == Direction::North {
            d
        } else {
            f
        };
        pre.lemma_room_idx_inverse(cx, cy);
        let i0 = pre.room_idx(cx, cy);
        assert forall|i: int| 0 <= i < total && i != i0 implies #[trigger] post.room_open_count(i)
            == pre.room_open_count(i) by {
            pre.lemma_index_coords(i);
            let x = i % w;
            let y = i / w;
            assert(!(x == cx && y == cy));
            assert(post.wall_at(x, y, Direction::East) == pre.wall_at(x, y, Direction::East));
            assert(post.wall_at(x, y, Direction::North) == pre.wall_at(x, y, Direction::North));
        }
        Self::lemma_open_count_upto_agree(pre, post, i0, total);
        assert(post.room_open_count(i0) == pre.room_open_count(i0) + (if pre.wall_at(px, py, d) {
            1 as int
        } else {
            -1
        })) by {
            assert(i0 % w == cx && i0 / w == cy);
            assert(pre.wall_at(cx, cy, cd) == pre.wall_at(px, py, d));
            assert(post.wall_at(cx, cy, cd) == !pre.wall_at(cx, cy, cd));
            if cd == Direction::East {
                assert(post.wall_at(cx, cy, Direction::North) == pre.wall_at(
                    cx,
                    cy,
                    Direction::North,
                ));
            } else {
                assert(post.wall_at(cx, cy, Direction::East) == pre.wall_at(
                    cx,
                    cy,
                    Direction::East,
                ));
            }
        }
    }

    /// Installs a fresh default wall on both sides of the edge from `room`
    /// towards `dir`.  The edge must lead to a neighbour and be open on both
    /// sides (by the symmetry invariant, one side speaks for both).
    pub fn add_wall(&mut self, room: Point, dir: Direction) where W: Default
        requires
            old(self).inv(),
            old(self).valid_point(room),
            old(self).has_neighbour(room.0 as int, room.1 as int, dir),
            !old(self).wall_at(room.0 as int, room.1 as int, dir),
        ensures
            final(self).inv(),
            final(self).width == old(self).width,
            final(self).height == old(self).height,
            final(self).wall_at(room.0 as int, room.1 as int, dir),
            final(self).wall_at(
                nbr_x(room.0 as int, dir),
                nbr_y(room.1 as int, dir),
                dir.flip_spec(),
            ),
            forall|x: int, y: int, e: Direction|
                old(self).valid_room(x, y) && !(x == room.0 && y == room.1 && e == dir) && !(x
                    == nbr_x(room.0 as int, dir) && y == nbr_y(room.1 as int, dir) && e
                    == dir.flip_spec()) ==> #[trigger] final(self).wall_data_at(x, y, e) == old(
                    self,
                ).wall_data_at(x, y, e),
            forall|x: int, y: int|
                old(self).valid_room(x, y) ==> #[trigger] final(self).room_info_at(x, y) == old(
                    self,
                ).room_info_at(x, y),
            final(self).open_count() == old(self).open_count() - 1,
    {
        let ghost pre = *self;
        let nbr = self.get_neighbour(room, dir).unwrap();
        let ix_from = self.coord_to_index(room);
        let ix_to = self.coord_to_index(nbr);
        proof {
            pre.lemma_neighbour_symmetric(room.0 as int, room.1 as int, dir);
            pre.lemma_room_idx_inverse(room.0 as int, room.1 as int);
            pre.lemma_room_idx_inverse(nbr.0 as int, nbr.1 as int);
            assert(ix_from != ix_to);
        }
        let rf = &mut self.rooms[ix_from];
        rf.walls.set(dir, Some(W::default()));
        let d2 = dir.flip();
        let rt = &mut self.rooms[ix_to];
        rt.walls.set(d2, Some(W::default()));
        proof {
            let px = room.0 as int;
            let py = room.1 as int;
            let qx = nbr.0 as int;
            let qy = nbr.1 as int;
            assert forall|x: int, y: int, e: Direction|
                pre.valid_room(x, y) && !(x == px && y == py && e == dir) && !(x == qx && y == qy
                    && e == dir.flip_spec()) implies #[trigger] self.wall_data_at(x, y, e)
                == pre.wall_data_at(x, y, e) by {
                pre.lemma_room_idx_inverse(x, y);
                pre.lemma_room_idx_inverse(px, py);
                pre.lemma_room_idx_inverse(qx, qy);
            }
            assert forall|x: int, y: int|
                pre.valid_room(x, y) implies #[trigger] self.room_info_at(x, y)
                == pre.room_info_at(x, y) by {
                pre.lemma_room_idx_inverse(x, y);
                pre.lemma_room_idx_inverse(px, py);
                pre.lemma_room_idx_inverse(qx, qy);
            }
            assert(self.wall_at(px, py, dir));
            assert(self.wall_at(qx, qy, dir.flip_spec()));
            Self::lemma_symmetric_after_pair_update(pre, *self, px, py, dir);
            assert(!pre.wall_at(qx, qy, dir.flip_spec()));
            Self::lemma_open_count_pair_change(pre, *self, px, py, dir);
        }
    }

    /// Clears the wall on both sides of the edge from `room` towards `dir`,
    /// opening a passage.  The edge must lead to a neighbour and be walled.
    pub fn remove_wall(&mut self, room: Point, dir: Direction)
        requires
            old(self).inv(),
            old(self).valid_point(room),
            old(self).has_neighbour(room.0 as int, room.1 as int, dir),
            old(self).wall_at(room.0 as int, room.1 as int, dir),
        ensures
            final(self).inv(),
            final(self).width == old(self).width,
            final(self).height == old(self).height,
            !final(self).wall_at(room.0 as int, room.1 as int, dir),
            !final(self).wall_at(
                nbr_x(room.0 as int, dir),
                nbr_y(room.1 as int, dir),
                dir.flip_spec(),
            ),
            forall|x: int, y: int, e: Direction|
                old(self).valid_room(x, y) && !(x == room.0 && y == room.1 && e == dir) && !(x
                    == nbr_x(room.0 as int, dir) && y == nbr_y(room.1 as int, dir) && e
                    == dir.flip_spec()) ==> #[trigger] final(self).wall_data_at(x, y, e) == old(
                    self,
                ).wall_data_at(x, y, e),
            forall|x: int, y: int|
                old(self).valid_room(x, y) ==> #[trigger] final(self).room_info_at(x, y) == old(
                    self,
                ).room_info_at(x, y),
            final(self).open_count() == old(self).open_count() + 1,
    {
        let ghost pre = *self;
        let nbr = self.get_neighbour(room, dir).unwrap();
        let ix_from = self.coord_to_index(room);
        let ix_to = self.coord_to_index(nbr);
        proof {
            pre.lemma_neighbour_symmetric(room.0 as int, room.1 as int, dir);
            pre.lemma_room_idx_inverse(room.0 as int, room.1 as int);
            pre.lemma_room_idx_inverse(nbr.0 as int, nbr.1 as int);
            assert(ix_from != ix_to);
        }
        let rf = &mut self.rooms[ix_from];
        rf.walls.set(dir, None);
        let d2 = dir.flip();
        let rt = &mut self.rooms[ix_to];
        rt.walls.set(d2, None);
        proof {
            let px = room.0 as int;
            let py = room.1 as int;
            let qx = nbr.0 as int;
            let qy = nbr.1 as int;
            assert forall|x: int, y: int, e: Direction|
                pre.valid_room(x, y) && !(x == px && y == py && e == dir) && !(x == qx && y == qy
                    && e == dir.flip_spec()) implies #[trigger] self.wall_data_at(x, y, e)
                == pre.wall_data_at(x, y, e) by {
                pre.lemma_room_idx_inverse(x, y);
                pre.lemma_room_idx_inverse(px, py);
                pre.lemma_room_idx_inverse(qx, qy);
            }
            assert forall|x: int, y: int|
                pre.valid_room(x, y) implies #[trigger] self.room_info_at(x, y)
                == pre.room_info_at(x, y) by {
                pre.lemma_room_idx_inverse(x, y);
                pre.lemma_room_idx_inverse(px, py);
                pre.lemma_room_idx_inverse(qx, qy);
            }
            assert(!self.wall_at(px, py, dir));
            assert(!self.wall_at(qx, qy, dir.flip_spec()));
            Self::lemma_symmetric_after_pair_update(pre, *self, px, py, dir);
            assert(pre.wall_at(qx, qy, dir.flip_spec()));
            Self::lemma_open_count_pair_change(pre, *self, px, py, dir);
        }
    }

    /// Like [`Self::add_wall`], but checks its contract at run time and
    /// reports a violation instead of touching the grid.
    pub fn try_add_wall(&mut self, room: Point, dir: Direction) -> (r: Result<(), WallError>) where
        W: Default,

        requires
            old(self).inv(),
            old(self).valid_point(room),
        ensures
            final(self).inv(),
            final(self).width == old(self).width,
            final(self).height == old(self).height,
            r is Ok <==> (old(self).has_neighbour(room.0 as int, room.1 as int, dir) && !old(
                self,
            ).wall_at(room.0 as int, room.1 as int, dir)),
            r == Err::<(), WallError>(WallError::NoNeighbour) <==> !old(self).has_neighbour(
                room.0 as int,
                room.1 as int,
                dir,
            ),
            r == Err::<(), WallError>(WallError::AlreadyWalled) <==> (old(self).has_neighbour(
                room.0 as int,
                room.1 as int,
                dir,
            ) && old(self).wall_at(room.0 as int, room.1 as int, dir)),
            r is Ok ==> final(self).wall_at(room.0 as int, room.1 as int, dir),
            r is Ok ==> final(self).wall_at(
                nbr_x(room.0 as int, dir),
                nbr_y(room.1 as int, dir),
                dir.flip_spec(),
            ),
            r is Ok ==> forall|x: int, y: int, e: Direction|
                old(self).valid_room(x, y) && !(x == room.0 && y == room.1 && e == dir) && !(x
                    == nbr_x(room.0 as int, dir) && y == nbr_y(room.1 as int, dir) && e
                    == dir.flip_spec()) ==> #[trigger] final(self).wall_data_at(x, y, e) == old(
                    self,
                ).wall_data_at(x, y, e),
            r is Ok ==> final(self).open_count() == old(self).open_count() - 1,
            forall|x: int, y: int|
                old(self).valid_room(x, y) ==> #[trigger] final(self).room_info_at(x, y) == old(
                    self,
                ).room_info_at(x, y),
            !(r is Ok) ==> *final(self) == *old(self),
    {
        match self.get_neighbour(room, dir) {
            None => Err(WallError::NoNeighbour),
            Some(_) => {
                if self.has_wall(room, dir) {
                    Err(WallError::AlreadyWalled)
                } else {
                    self.add_wall(room, dir);
                    Ok(())
                }
            },
        }
    }

    /// Like [`Self::remove_wall`], but checks its contract at run time and
    /// reports a violation instead of touching the grid.
    pub fn try_remove_wall(&mut self, room: Point, dir: Direction) -> (r: Result<(), WallError>)
        requires
            old(self).inv(),
            old(self).valid_point(room),
        ensures
            final(self).inv(),
            final(self).width == old(self).width,
            final(self).height == old(self).height,
            r is Ok <==> (old(self).has_neighbour(room.0 as int, room.1 as int, dir) && old(
                self,
            ).wall_at(room.0 as int, room.1 as int, dir)),
            r == Err::<(), WallError>(WallError::NoNeighbour) <==> !old(self).has_neighbour(
                room.0 as int,
                room.1 as int,
                dir,
            ),
            r == Err::<(), WallError>(WallError::AlreadyOpen) <==> (old(self).has_neighbour(
                room.0 as int,
                room.1 as int,
                dir,
            ) && !old(self).wall_at(room.0 as int, room.1 as int, dir)),
            r is Ok ==> !final(self).wall_at(room.0 as int, room.1 as int, dir),
            r is Ok ==> !final(self).wall_at(
                nbr_x(room.0 as int, dir),
                nbr_y(room.1 as int, dir),
                dir.flip_spec(),
            ),
            r is Ok ==> forall|x: int, y: int, e: Direction|
                old(self).valid_room(x, y) && !(x == room.0 && y == room.1 && e == dir) && !(x
                    == nbr_x(room.0 as int, dir) && y == nbr_y(room.1 as int, dir) && e
                    == dir.flip_spec()) ==> #[trigger] final(self).wall_data_at(x, y, e) == old(
                    self,
                ).wall_data_at(x, y, e),
            r is Ok ==> final(self).open_count() == old(self).open_count() + 1,
            forall|x: int, y: int|
                old(self).valid_room(x, y) ==> #[trigger] final(self).room_info_at(x, y) == old(
                    self,
                ).room_info_at(x, y),
            !(r is Ok) ==> *final(self) == *old(self),
    {
        match self.get_neighbour(room, dir) {
            None => Err(WallError::NoNeighbour),
            Some(_) => {
                if !self.has_wall(room, dir) {
                    Err(WallError::AlreadyOpen)
                } else {
                    self.remove_wall(room, dir);
                    Ok(())
                }
            },
        }
    }

    /// What a faithful snapshot of this labyrinth looks like: same grid
    /// dimensions, and per room exactly the walled directions of the grid.
    pub open spec fn is_view_of(self, v: LabyrinthView) -> bool {
        &&& v.wf()
        &&& v.width == self.width
        &&& v.height == self.height
        &&& forall|x: int, y: int, d: Direction|
            self.valid_room(x, y) ==> #[trigger] v.room_at(x, y).has_wall_spec(d) == self.wall_at(
                x,
                y,
                d,
            )
    }

    /// Snapshots the wall state of every room, in row-major order.  The
    /// snapshot owns its data: later mutation of the labyrinth cannot touch
    /// a view already taken.
    pub fn view(&self) -> (r: LabyrinthView)
        requires
            self.wf(),
            self.width * ROOM_EDGE_LENGTH <= usize::MAX,
            self.height * ROOM_EDGE_LENGTH <= usize::MAX,
        ensures
            self.is_view_of(r),
    {
        let n = self.rooms.len();
        let mut rooms_v: Vec<RoomView> = Vec::new();
        let mut i: usize = 0;
        while i < n
            invariant
                self.wf(),
                n == self.rooms@.len(),
                i <= n,
                rooms_v@.len() == i,
                forall|k: int, d: Direction|
                    0 <= k < i ==> #[trigger] rooms_v@[k].has_wall_spec(d)
                        == self.rooms@[k].walls.get_spec(d).is_some(),
            decreases n - i,
        {
            let rm = &self.rooms[i];
            let rv = RoomView {
                north: rm.walls.north.is_some(),
                east: rm.walls.east.is_some(),
                south: rm.walls.south.is_some(),
                west: rm.walls.west.is_some(),
            };
            rooms_v.push(rv);
            i = i + 1;
        }
        let r = LabyrinthView::new(self.width, self.height, rooms_v);
        proof {
            assert forall|x: int, y: int, d: Direction|
                self.valid_room(x, y) implies #[trigger] r.room_at(x, y).has_wall_spec(d)
                == self.wall_at(x, y, d) by {
                self.lemma_room_idx_bounds(x, y);
            }
        }
        r
    }

    /// The wall symmetry law: for any room and direction with a neighbour,
    /// the wall is seen identically from both sides.
    pub proof fn lemma_wall_symmetry(self, room: Point, dir: Direction)
        requires
            self.inv(),
            self.valid_point(room),
            self.has_neighbour(room.0 as int, room.1 as int, dir),
        ensures
            self.wall_at(room.0 as int, room.1 as int, dir) == self.wall_at(
                nbr_x(room.0 as int, dir),
                nbr_y(room.1 as int, dir),
                dir.flip_spec(),
            ),
    {
    }

    /// Snapshots are a pure function of the wall state: any two faithful
    /// views of the same labyrinth are identical, room for room.
    pub proof fn lemma_view_unique(self, v1: LabyrinthView, v2: LabyrinthView)
        requires
            self.wf(),
            self.is_view_of(v1),
            self.is_view_of(v2),
        ensures
            v1.width == v2.width,
            v1.height == v2.height,
            v1.rooms@ =~= v2.rooms@,
    {
        assert forall|k: int| 0 <= k < v1.rooms@.len() implies v1.rooms@[k] == v2.rooms@[k] by {
            assert(self.width >= 1) by (nonlinear_arith)
                requires
                    0 <= k < self.width * self.height,
            ;
            self.lemma_index_coords(k);
            let w = self.width as int;
            let x = k % w;
            let y = k / w;
            assert(v1.room_at(x, y).has_wall_spec(Direction::North) == v2.room_at(
                x,
                y,
            ).has_wall_spec(Direction::North));
            assert(v1.room_at(x, y).has_wall_spec(Direction::East) == v2.room_at(
                x,
                y,
            ).has_wall_spec(Direction::East));
            assert(v1.room_at(x, y).has_wall_spec(Direction::South) == v2.room_at(
                x,
                y,
            ).has_wall_spec(Direction::South));
            assert(v1.room_at(x, y).has_wall_spec(Direction::West) == v2.room_at(
                x,
                y,
            ).has_wall_spec(Direction::West));
        }
    }
}


impl<R, W> FlatLabyrinth<R, W> {
    /// Two rooms joined by an open passage: `b` is a neighbour of `a` and
    /// the edge between them carries no wall.
    pub open spec fn adj_open(self, a: (int, int), b: (int, int)) -> bool {
        exists|d: Direction|
            self.valid_room(a.0, a.1) && #[trigger] self.has_neighbour(a.0, a.1, d) && nbr_x(
                a.0,
                d,
            ) == b.0 && nbr_y(a.1, d) == b.1 && !self.wall_at(a.0, a.1, d)
    }

    /// A walk along open passages through valid rooms.
    pub open spec fn is_path(self, p: Seq<(int, int)>) -> bool {
        &&& forall|k: int| #![trigger p[k]] 0 <= k < p.len() ==> self.valid_room(p[k].0, p[k].1)
        &&& forall|k: int| 0 <= k < p.len() - 1 ==> self.adj_open(#[trigger] p[k], p[k + 1])
    }

    /// Some open walk leads from `a` to `b`.
    pub open spec fn connected(self, a: (int, int), b: (int, int)) -> bool {
        exists|p: Seq<(int, int)>|
            #[trigger] self.is_path(p) && p.len() >= 1 && p.first() == a && p.last() == b
    }

    /// Every room reaches itself.
    pub proof fn lemma_connected_refl(self, a: (int, int))
        requires
            self.valid_room(a.0, a.1),
        ensures
            self.connected(a, a),
    {
        let p = seq![a];
        assert(self.is_path(p) && p.len() >= 1 && p.first() == a && p.last() == a);
    }

    /// Extending a walk by one open passage.
    pub proof fn lemma_connected_step(self, a: (int, int), b: (int, int), c: (int, int))
        requires
            self.connected(a, b),
            self.adj_open(b, c),
            self.valid_room(c.0, c.1),
        ensures
            self.connected(a, c),
    {
        let p = choose|p: Seq<(int, int)>|
            #[trigger] self.is_path(p) && p.len() >= 1 && p.first() == a && p.last() == b;
        let q = p.push(c);
        assert forall|k: int| #![trigger q[k]] 0 <= k < q.len() implies self.valid_room(
            q[k].0,
            q[k].1,
        ) by {
            if k < p.len() {
                assert(q[k] == p[k]);
            } else {
                assert(q[k] == c);
            }
        }
        assert forall|k: int| 0 <= k < q.len() - 1 implies self.adj_open(
            #[trigger] q[k],
            q[k + 1],
        ) by {
            if k < p.len() - 1 {
                assert(q[k] == p[k] && q[k + 1] == p[k + 1]);
            } else {
                assert(q[k] == p[p.len() - 1] && q[k + 1] == c);
                assert(p.last() == b);
            }
        }
        assert(self.is_path(q) && q.len() >= 1 && q.first() == a && q.last() == c);
    }

    /// Opening walls never disconnects: a walk stays a walk when walls only
    /// go away.
    pub proof fn lemma_connected_monotonic(pre: Self, post: Self, a: (int, int), b: (int, int))
        requires
            pre.connected(a, b),
            post.width == pre.width,
            post.height == pre.height,
            forall|x: int, y: int, e: Direction|
                pre.valid_room(x, y) && !pre.wall_at(x, y, e) ==> !(#[trigger] post.wall_at(
                    x,
                    y,
                    e,
                )),
        ensures
            post.connected(a, b),
    {
        let p = choose|p: Seq<(int, int)>|
            #[trigger] pre.is_path(p) && p.len() >= 1 && p.first() == a && p.last() == b;
        assert forall|k: int| #![trigger p[k]] 0 <= k < p.len() implies post.valid_room(
            p[k].0,
            p[k].1,
        ) by {}
        assert forall|k: int| 0 <= k < p.len() - 1 implies post.adj_open(
            #[trigger] p[k],
            p[k + 1],
        ) by {
            assert(pre.adj_open(p[k], p[k + 1]));
            let d = choose|d: Direction|
                pre.valid_room(p[k].0, p[k].1) && #[trigger] pre.has_neighbour(p[k].0, p[k].1, d)
                    && nbr_x(p[k].0, d) == p[k + 1].0 && nbr_y(p[k].1, d) == p[k + 1].1
                    && !pre.wall_at(p[k].0, p[k].1, d);
            assert(post.has_neighbour(p[k].0, p[k].1, d) && nbr_x(p[k].0, d) == p[k + 1].0
                && nbr_y(p[k].1, d) == p[k + 1].1 && !post.wall_at(p[k].0, p[k].1, d));
        }
        assert(post.is_path(p) && p.len() >= 1 && p.first() == a && p.last() == b);
    }

    /// Under the symmetry invariant an open passage can be walked both ways.
    pub proof fn lemma_adj_open_sym(self, a: (int, int), b: (int, int))
        requires
            self.symmetric(),
            self.adj_open(a, b),
        ensures
            self.adj_open(b, a),
    {
        let d = choose|d: Direction|
            self.valid_room(a.0, a.1) && #[trigger] self.has_neighbour(a.0, a.1, d) && nbr_x(
                a.0,
                d,
            ) == b.0 && nbr_y(a.1, d) == b.1 && !self.wall_at(a.0, a.1, d);
        self.lemma_neighbour_symmetric(a.0, a.1, d);
        d.lemma_flip_involution();
        assert(self.wall_at(a.0, a.1, d) == self.wall_at(b.0, b.1, d.flip_spec()));
        assert(self.has_neighbour(b.0, b.1, d.flip_spec()) && nbr_x(b.0, d.flip_spec()) == a.0
            && nbr_y(b.1, d.flip_spec()) == a.1 && !self.wall_at(b.0, b.1, d.flip_spec()));
    }

    /// A walk, walked backwards.
    proof fn lemma_path_reverse(self, p: Seq<(int, int)>)
        requires
            self.symmetric(),
            self.is_path(p),
            p.len() >= 1,
        ensures
            self.connected(p.last(), p.first()),
        decreases p.len(),
    {
        if p.len() == 1 {
            self.lemma_connected_refl(p[0]);
        } else {
            let q = p.subrange(1, p.len() as int);
            assert forall|k: int| #![trigger q[k]] 0 <= k < q.len() implies self.valid_room(
                q[k].0,
                q[k].1,
            ) by {
                assert(q[k] == p[k + 1]);
            }
            assert forall|k: int| 0 <= k < q.len() - 1 implies self.adj_open(
                #[trigger] q[k],
                q[k + 1],
            ) by {
                assert(q[k] == p[k + 1] && q[k + 1] == p[k + 2]);
                assert(self.adj_open(p[k + 1], p[k + 2]));
            }
            assert(self.is_path(q));
            self.lemma_path_reverse(q);
            assert(q.last() == p.last() && q.first() == p[1]);
            assert(self.adj_open(p[0], p[1]));
            self.lemma_adj_open_sym(p[0], p[1]);
            self.lemma_connected_step(p.last(), p[1], p[0]);
            assert(p.first() == p[0]);
        }
    }

    /// Connectivity is symmetric.
    pub proof fn lemma_connected_sym(self, a: (int, int), b: (int, int))
        requires
            self.symmetric(),
            self.connected(a, b),
        ensures
            self.connected(b, a),
    {
        let p = choose|p: Seq<(int, int)>|
            #[trigger] self.is_path(p) && p.len() >= 1 && p.first() == a && p.last() == b;
        self.lemma_path_reverse(p);
    }

    /// Walking a whole path from a room already connected to its start.
    proof fn lemma_connected_extend(self, a: (int, int), q: Seq<(int, int)>)
        requires
            self.is_path(q),
            q.len() >= 1,
            self.connected(a, q.first()),
        ensures
            self.connected(a, q.last()),
        decreases q.len(),
    {
        if q.len() > 1 {
            assert(self.adj_open(q[0], q[1]));
            assert(q[1] == q.subrange(1, q.len() as int)[0]);
            self.lemma_connected_step(a, q[0], q[1]);
            let r = q.subrange(1, q.len() as int);
            assert forall|k: int| #![trigger r[k]] 0 <= k < r.len() implies self.valid_room(
                r[k].0,
                r[k].1,
            ) by {
                assert(r[k] == q[k + 1]);
            }
            assert forall|k: int| 0 <= k < r.len() - 1 implies self.adj_open(
                #[trigger] r[k],
                r[k + 1],
            ) by {
                assert(r[k] == q[k + 1] && r[k + 1] == q[k + 2]);
                assert(self.adj_open(q[k + 1], q[k + 2]));
            }
            assert(self.is_path(r));
            self.lemma_connected_extend(a, r);
            assert(r.last() == q.last());
        }
    }

    /// Connectivity is transitive.
    pub proof fn lemma_connected_trans(self, a: (int, int), b: (int, int), c: (int, int))
        requires
            self.connected(a, b),
            self.connected(b, c),
        ensures
            self.connected(a, c),
    {
        let q = choose|q: Seq<(int, int)>|
            #[trigger] self.is_path(q) && q.len() >= 1 && q.first() == b && q.last() == c;
        self.lemma_connected_extend(a, q);
    }

    /// Connectivity through a hub: two rooms that a third one reaches reach
    /// each other.
    pub proof fn lemma_connected_through(self, c: (int, int), a: (int, int), b: (int, int))
        requires
            self.symmetric(),
            self.connected(c, a),
            self.connected(c, b),
        ensures
            self.connected(a, b),
    {
        self.lemma_connected_sym(c, a);
        self.lemma_connected_trans(a, c, b);
    }
}

} // verus!
