//! The maze generator: a randomized depth-first walk that carves a spanning
//! tree of open passages through a fully walled labyrinth.
//!
//! The walk keeps a stack of rooms.  Each round it looks at the top room,
//! marks it explored, and collects the directions that lead to a not yet
//! explored neighbour.  If there is one, it opens the wall towards a chosen
//! such direction and steps into that neighbour; at a dead end it backtracks
//! by popping the stack.  Every room is entered exactly once, so the opened
//! passages form a spanning tree: when the stack runs empty, every room is
//! reachable from the start and exactly `width * height - 1` passages are
//! open.

use crate::geometry::Direction;
use crate::geometry::Point;
use crate::labyrinth::flat::nbr_x;
use crate::labyrinth::flat::nbr_y;
use crate::labyrinth::FlatLabyrinth;
use rand::Rng;
use vstd::prelude::*;

verus! {

/// Relies on rand::Rng::gen_range over the non-empty range `0..n`: the
/// sample lies in the range, so it is strictly below `n`.
#[verifier::external_body]
fn random_below(n: usize) -> (r: usize)
    requires
        1 <= n,
    ensures
        r < n,
{
    rand::thread_rng().gen_range(0..n)
}

/// One step of the seeded chooser's linear congruential stream.
pub open spec fn lcg_next_spec(s: u64) -> u64 {
    ((((s as int) % 0x8000_0000) * 1103515245 + 12345) % 0x8000_0000) as u64
}

/// Picks indices below a bound, either from the thread's random number
/// generator or deterministically from a seed; the seeded form makes a
/// carving run reproducible.
pub enum Chooser {
    /// Draw from the thread's random number generator.
    Random,
    /// Step a linear congruential stream from this state.
    Seeded(u64),
}

impl Chooser {
    /// The chooser's state after one pick.
    pub open spec fn step_spec(self) -> Chooser {
        match self {
            Chooser::Random => Chooser::Random,
            Chooser::Seeded(s) => Chooser::Seeded(lcg_next_spec(s)),
        }
    }

    /// Picks some index below `n`; the seeded form picks the current stream
    /// value reduced modulo `n`.
    pub fn choose_below(&mut self, n: usize) -> (r: usize)
        requires
            1 <= n,
        ensures
            r < n,
            *final(self) == old(self).step_spec(),
            *old(self) matches Chooser::Seeded(s) ==> r == lcg_next_spec(s) as int % (n as int),
    {
        match self {
            Chooser::Random => random_below(n),
            Chooser::Seeded(s) => {
                let cur: u64 = *s % 0x8000_0000;
                proof {
                    assert(cur * 1103515245 + 12345 < 0x1_0000_0000_0000_0000) by (nonlinear_arith)
                        requires
                            cur < 0x8000_0000,
                    ;
                }
                let next: u64 = (cur * 1103515245 + 12345) % 0x8000_0000;
                *s = next;
                (next as usize) % n
            },
        }
    }
}

/// The number of set entries of a boolean sequence.
pub open spec fn count_true(s: Seq<bool>) -> int
    decreases s.len(),
{
    if s.len() == 0 {
        0
    } else {
        count_true(s.drop_last()) + (if s.last() {
            1 as int
        } else {
            0
        })
    }
}

proof fn lemma_count_true_bounds(s: Seq<bool>)
    ensures
        0 <= count_true(s) <= s.len(),
    decreases s.len(),
{
    if s.len() > 0 {
        lemma_count_true_bounds(s.drop_last());
    }
}

proof fn lemma_count_true_none(s: Seq<bool>)
    requires
        forall|j: int| 0 <= j < s.len() ==> !(#[trigger] s[j]),
    ensures
        count_true(s) == 0,
    decreases s.len(),
{
    if s.len() > 0 {
        lemma_count_true_none(s.drop_last());
    }
}

proof fn lemma_count_true_all(s: Seq<bool>)
    requires
        forall|j: int| 0 <= j < s.len() ==> #[trigger] s[j],
    ensures
        count_true(s) == s.len(),
    decreases s.len(),
{
    if s.len() > 0 {
        lemma_count_true_all(s.drop_last());
    }
}

proof fn lemma_count_true_update(s: Seq<bool>, i: int)
    requires
        0 <= i < s.len(),
    ensures
        count_true(s.update(i, true)) == count_true(s) + (if s[i] {
            0
        } else {
            1 as int
        }),
    decreases s.len(),
{
    let t = s.update(i, true);
    if i == s.len() - 1 {
        assert(t.drop_last() =~= s.drop_last());
        assert(t.last());
    } else {
        lemma_count_true_update(s.drop_last(), i);
        assert(t.drop_last() =~= s.drop_last().update(i, true));
        assert(t.last() == s.last());
    }
}

/// A set of rooms that contains the origin and is closed under stepping to
/// neighbours covers the whole grid.
proof fn lemma_closed_covers<R, W>(lab: FlatLabyrinth<R, W>, e: Seq<bool>, x: int, y: int)
    requires
        lab.wf(),
        1 <= lab.width,
        1 <= lab.height,
        e.len() == lab.width * lab.height,
        e[0],
        forall|a: int, b: int, d: Direction|
            #![trigger e[lab.room_idx(a, b)], lab.has_neighbour(a, b, d)]
            lab.valid_room(a, b) && e[lab.room_idx(a, b)] && lab.has_neighbour(a, b, d)
                ==> e[lab.room_idx(nbr_x(a, d), nbr_y(b, d))],
        lab.valid_room(x, y),
    ensures
        e[lab.room_idx(x, y)],
    decreases x + y,
{
    if x > 0 {
        lemma_closed_covers(lab, e, x - 1, y);
        assert(lab.has_neighbour(x - 1, y, Direction::East));
        assert(nbr_x(x - 1, Direction::East) == x && nbr_y(y, Direction::East) == y);
    } else if y > 0 {
        lemma_closed_covers(lab, e, x, y - 1);
        assert(lab.has_neighbour(x, y - 1, Direction::North));
        assert(nbr_x(x, Direction::North) == x && nbr_y(y - 1, Direction::North) == y);
    } else {
        assert(lab.room_idx(0, 0) == 0);
    }
}

/// Whether the room `(x, y)` occurs anywhere on the stack.
spec fn on_stack(st: Seq<Point>, x: int, y: int) -> bool {
    exists|i: int| 0 <= i < st.len() && (#[trigger] st[i]).0 == x && st[i].1 == y
}

/// Whether the room `(x, y)` has been marked explored or is the room the
/// walk currently stands in (the stack's top).
spec fn seen(e: Seq<bool>, st: Seq<Point>, w: int, x: int, y: int) -> bool {
    e[y * w + x] || (st.len() > 0 && st.last().0 == x && st.last().1 == y)
}

/// After opening the wall from the old top towards the new top, every room
/// reached before is still reached, and the new top is reached too.
#[verifier::rlimit(100)]
proof fn lemma_push_reach<R, W>(
    lab_pre: FlatLabyrinth<R, W>,
    lab: FlatLabyrinth<R, W>,
    e1: Seq<bool>,
    st0: Seq<Point>,
    st1: Seq<Point>,
    top: Point,
    d: Direction,
    q: Point,
    w: int,
    total: int,
)
    requires
        lab_pre.wf(),
        lab.wf(),
        lab_pre.width == w,
        lab_pre.height == lab.height,
        lab.width == w,
        total == w * lab.height,
        lab_pre.valid_point(top),
        lab_pre.has_neighbour(top.0 as int, top.1 as int, d),
        q.0 == nbr_x(top.0 as int, d),
        q.1 == nbr_y(top.1 as int, d),
        st0.len() > 0,
        st0.last() == top,
        st1 == st0.push(q),
        forall|x: int, y: int, e: Direction|
            lab_pre.valid_room(x, y) && !(x == top.0 && y == top.1 && e == d) && !(x == q.0 && y
                == q.1 && e == d.flip_spec()) ==> #[trigger] lab.wall_data_at(x, y, e)
                == lab_pre.wall_data_at(x, y, e),
        !lab.wall_at(top.0 as int, top.1 as int, d),
        !lab.wall_at(q.0 as int, q.1 as int, d.flip_spec()),
        forall|i: int|
            #![trigger st0[i]]
            0 <= i < st0.len() ==> lab_pre.connected((0, 0), (st0[i].0 as int, st0[i].1 as int)),
        forall|i: int|
            0 <= i < total && #[trigger] e1[i] ==> lab_pre.connected((0, 0), (i % w, i / w)),
    ensures
        forall|i: int|
            #![trigger st1[i]]
            0 <= i < st1.len() ==> lab.connected((0, 0), (st1[i].0 as int, st1[i].1 as int)),
        forall|i: int| 0 <= i < total && #[trigger] e1[i] ==> lab.connected((0, 0), (i % w, i / w)),
{
    let px = top.0 as int;
    let py = top.1 as int;
    let qx = q.0 as int;
    let qy = q.1 as int;
    let f = d.flip_spec();
    lab_pre.lemma_neighbour_symmetric(px, py, d);
    // walls were only removed
    assert forall|x: int, y: int, e: Direction|
        lab_pre.valid_room(x, y) && !lab_pre.wall_at(x, y, e) implies !(#[trigger] lab.wall_at(
            x,
            y,
            e,
        )) by {
        if !(x == px && y == py && e == d) && !(x == qx && y == qy && e == f) {
            assert(lab.wall_data_at(x, y, e) == lab_pre.wall_data_at(x, y, e));
        }
    }
    // the new top is reached through the passage just opened
    assert(lab.adj_open((px, py), (qx, qy))) by {
        assert(lab.valid_room(px, py) && lab.has_neighbour(px, py, d) && nbr_x(px, d) == qx
            && nbr_y(py, d) == qy && !lab.wall_at(px, py, d));
    }
    assert forall|i: int| #![trigger st1[i]] 0 <= i < st1.len() implies lab.connected(
        (0, 0),
        (st1[i].0 as int, st1[i].1 as int),
    ) by {
        if i < st0.len() {
            assert(st1[i] == st0[i]);
            FlatLabyrinth::<R, W>::lemma_connected_monotonic(
                lab_pre,
                lab,
                (0, 0),
                (st0[i].0 as int, st0[i].1 as int),
            );
        } else {
            assert(st1[i] == q);
            assert(lab_pre.connected((0, 0), (px, py)));
            FlatLabyrinth::<R, W>::lemma_connected_monotonic(lab_pre, lab, (0, 0), (px, py));
            lab.lemma_connected_step((0, 0), (px, py), (qx, qy));
        }
    }
    assert forall|i: int| 0 <= i < total && #[trigger] e1[i] implies lab.connected(
        (0, 0),
        (i % w, i / w),
    ) by {
        FlatLabyrinth::<R, W>::lemma_connected_monotonic(lab_pre, lab, (0, 0), (i % w, i / w));
    }
}

/// After the push step, every open passage still has both ends seen.
#[verifier::rlimit(100)]
proof fn lemma_push_seen<R, W>(
    lab_pre: FlatLabyrinth<R, W>,
    lab: FlatLabyrinth<R, W>,
    e0: Seq<bool>,
    e1: Seq<bool>,
    st0: Seq<Point>,
    st1: Seq<Point>,
    top: Point,
    tix: int,
    d: Direction,
    q: Point,
    w: int,
    total: int,
)
    requires
        lab_pre.wf(),
        lab.wf(),
        lab_pre.width == w,
        lab_pre.height == lab.height,
        lab.width == w,
        total == w * lab.height,
        e0.len() == total,
        e1 == e0.update(tix, true),
        0 <= tix < total,
        tix == top.1 * w + top.0,
        lab_pre.valid_point(top),
        lab_pre.has_neighbour(top.0 as int, top.1 as int, d),
        q.0 == nbr_x(top.0 as int, d),
        q.1 == nbr_y(top.1 as int, d),
        st0.len() > 0,
        st0.last() == top,
        st1 == st0.push(q),
        forall|x: int, y: int, e: Direction|
            lab_pre.valid_room(x, y) && !(x == top.0 && y == top.1 && e == d) && !(x == q.0 && y
                == q.1 && e == d.flip_spec()) ==> #[trigger] lab.wall_data_at(x, y, e)
                == lab_pre.wall_data_at(x, y, e),
        forall|x: int, y: int, e: Direction|
            lab_pre.valid_room(x, y) && lab_pre.has_neighbour(x, y, e) && !(
            #[trigger] lab_pre.wall_at(x, y, e)) ==> seen(e0, st0, w, x, y) && seen(
                e0,
                st0,
                w,
                nbr_x(x, e),
                nbr_y(y, e),
            ),
    ensures
        forall|x: int, y: int, e: Direction|
            lab.valid_room(x, y) && lab.has_neighbour(x, y, e) && !(#[trigger] lab.wall_at(
                x,
                y,
                e,
            )) ==> seen(e1, st1, w, x, y) && seen(e1, st1, w, nbr_x(x, e), nbr_y(y, e)),
{
    let px = top.0 as int;
    let py = top.1 as int;
    let qx = q.0 as int;
    let qy = q.1 as int;
    let f = d.flip_spec();
    lab_pre.lemma_neighbour_symmetric(px, py, d);
    d.lemma_flip_involution();
    assert(st1.last() == q);
    assert forall|x: int, y: int, e: Direction|
        lab.valid_room(x, y) && lab.has_neighbour(x, y, e) && !(#[trigger] lab.wall_at(
            x,
            y,
            e,
        )) implies seen(e1, st1, w, x, y) && seen(e1, st1, w, nbr_x(x, e), nbr_y(y, e)) by {
        lab_pre.lemma_neighbour_symmetric(x, y, e);
        lab_pre.lemma_room_idx_bounds(x, y);
        lab_pre.lemma_room_idx_bounds(nbr_x(x, e), nbr_y(y, e));
        let bx = nbr_x(x, e);
        let by = nbr_y(y, e);
        if x == px && y == py && e == d {
            assert(e1[py * w + px]);
        } else if x == qx && y == qy && e == f {
            assert(e1[py * w + px]);
        } else {
            assert(lab.wall_data_at(x, y, e) == lab_pre.wall_data_at(x, y, e));
            assert(!lab_pre.wall_at(x, y, e));
            assert(seen(e0, st0, w, x, y) && seen(e0, st0, w, bx, by));
            assert(e1[py * w + px]);
            assert(e1[y * w + x]);
            assert(e1[by * w + bx]);
        }
    }
}

/// After the push step, explored rooms off the stack still have all their
/// neighbours explored: the stack only grew, and the one room marked this
/// round sits right below the new top.
#[verifier::rlimit(100)]
proof fn lemma_push_closed<R, W>(
    lab_pre: FlatLabyrinth<R, W>,
    lab: FlatLabyrinth<R, W>,
    e0: Seq<bool>,
    e1: Seq<bool>,
    st0: Seq<Point>,
    st1: Seq<Point>,
    top: Point,
    tix: int,
    q: Point,
    w: int,
    total: int,
)
    requires
        lab_pre.wf(),
        lab.wf(),
        lab_pre.width == w,
        lab_pre.height == lab.height,
        lab.width == w,
        total == w * lab.height,
        e0.len() == total,
        e1 == e0.update(tix, true),
        0 <= tix < total,
        tix == top.1 * w + top.0,
        lab.valid_point(top),
        st0.len() > 0,
        st0.last() == top,
        st1 == st0.push(q),
        forall|a: int, b: int, e: Direction|
            #![trigger e0[lab_pre.room_idx(a, b)], lab_pre.has_neighbour(a, b, e)]
            lab_pre.valid_room(a, b) && e0[lab_pre.room_idx(a, b)] && !on_stack(st0, a, b)
                && lab_pre.has_neighbour(a, b, e) ==> e0[lab_pre.room_idx(
                nbr_x(a, e),
                nbr_y(b, e),
            )],
    ensures
        forall|a: int, b: int, e: Direction|
            #![trigger e1[lab.room_idx(a, b)], lab.has_neighbour(a, b, e)]
            lab.valid_room(a, b) && e1[lab.room_idx(a, b)] && !on_stack(st1, a, b)
                && lab.has_neighbour(a, b, e) ==> e1[lab.room_idx(nbr_x(a, e), nbr_y(b, e))],
{
    let px = top.0 as int;
    let py = top.1 as int;
    lab.lemma_room_idx_inverse(px, py);
    assert forall|a: int, b: int, e: Direction|
        #![trigger e1[lab.room_idx(a, b)], lab.has_neighbour(a, b, e)]
        lab.valid_room(a, b) && e1[lab.room_idx(a, b)] && !on_stack(st1, a, b)
            && lab.has_neighbour(a, b, e) implies e1[lab.room_idx(nbr_x(a, e), nbr_y(b, e))] by {
        lab.lemma_room_idx_inverse(a, b);
        lab.lemma_neighbour_symmetric(a, b, e);
        lab.lemma_room_idx_bounds(nbr_x(a, e), nbr_y(b, e));
        assert forall|i: int| 0 <= i < st0.len() implies st1[i] == st0[i] by {}
        if lab.room_idx(a, b) == tix {
            assert(a == px && b == py);
            assert(st1[st0.len() - 1] == top);
            assert(on_stack(st1, a, b));
        } else {
            assert(lab_pre.room_idx(a, b) == lab.room_idx(a, b));
            assert(e0[lab_pre.room_idx(a, b)]);
            assert(!on_stack(st0, a, b)) by {
                if on_stack(st0, a, b) {
                    let i = choose|i: int|
                        0 <= i < st0.len() && (#[trigger] st0[i]).0 == a && st0[i].1 == b;
                    assert(st1[i] == st0[i]);
                    assert(on_stack(st1, a, b));
                }
            }
            assert(lab_pre.has_neighbour(a, b, e));
            assert(e0[lab_pre.room_idx(nbr_x(a, e), nbr_y(b, e))]);
            assert(lab_pre.room_idx(nbr_x(a, e), nbr_y(b, e)) == lab.room_idx(
                nbr_x(a, e),
                nbr_y(b, e),
            ));
        }
    }
}

/// After a push step (marking the top explored, opening the wall towards
/// an unexplored neighbour and stepping into it) the walk's invariants
/// still hold.
#[verifier::rlimit(100)]
proof fn lemma_push_invariants<R, W>(
    lab0: FlatLabyrinth<R, W>,
    lab_pre: FlatLabyrinth<R, W>,
    lab: FlatLabyrinth<R, W>,
    e0: Seq<bool>,
    e1: Seq<bool>,
    st0: Seq<Point>,
    st1: Seq<Point>,
    top: Point,
    tix: int,
    d: Direction,
    q: Point,
    w: int,
    h: int,
    total: int,
)
    requires
        lab_pre.wf(),
        lab.wf(),
        lab_pre.width == w,
        lab_pre.height == h,
        lab.width == w,
        lab.height == h,
        lab0.width == w,
        lab0.height == h,
        1 <= w,
        1 <= h,
        total == w * h,
        e0.len() == total,
        e1 == e0.update(tix, true),
        0 <= tix < total,
        tix == top.1 * w + top.0,
        st0.len() > 0,
        st0.last() == top,
        st0[0] == (Point(0, 0)),
        st1 == st0.push(q),
        lab_pre.valid_point(top),
        lab_pre.has_neighbour(top.0 as int, top.1 as int, d),
        q.0 == nbr_x(top.0 as int, d),
        q.1 == nbr_y(top.1 as int, d),
        !e1[q.1 * w + q.0],
        forall|x: int, y: int, e: Direction|
            lab_pre.valid_room(x, y) && !(x == top.0 && y == top.1 && e == d) && !(x == q.0 && y
                == q.1 && e == d.flip_spec()) ==> #[trigger] lab.wall_data_at(x, y, e)
                == lab_pre.wall_data_at(x, y, e),
        !lab.wall_at(top.0 as int, top.1 as int, d),
        !lab.wall_at(q.0 as int, q.1 as int, d.flip_spec()),
        forall|x: int, y: int|
            lab_pre.valid_room(x, y) ==> #[trigger] lab.room_info_at(x, y)
                == lab_pre.room_info_at(x, y),
        forall|x: int, y: int|
            lab_pre.valid_room(x, y) ==> #[trigger] lab_pre.room_info_at(x, y)
                == lab0.room_info_at(x, y),
        forall|i: int| 0 <= i < st0.len() ==> lab_pre.valid_point(#[trigger] st0[i]),
        forall|i: int|
            #![trigger st0[i]]
            0 <= i < st0.len() - 1 ==> e0[st0[i].1 * w + st0[i].0],
        forall|i: int|
            #![trigger st0[i]]
            0 <= i < st0.len() ==> lab_pre.connected((0, 0), (st0[i].0 as int, st0[i].1 as int)),
        forall|i: int|
            0 <= i < total && #[trigger] e1[i] ==> lab_pre.connected((0, 0), (i % w, i / w)),
        forall|x: int, y: int, e: Direction|
            lab_pre.valid_room(x, y) && lab_pre.has_neighbour(x, y, e) && !(
            #[trigger] lab_pre.wall_at(x, y, e)) ==> seen(e0, st0, w, x, y) && seen(
                e0,
                st0,
                w,
                nbr_x(x, e),
                nbr_y(y, e),
            ),
        forall|a: int, b: int, e: Direction|
            #![trigger e0[lab_pre.room_idx(a, b)], lab_pre.has_neighbour(a, b, e)]
            lab_pre.valid_room(a, b) && e0[lab_pre.room_idx(a, b)] && !on_stack(st0, a, b)
                && lab_pre.has_neighbour(a, b, e) ==> e0[lab_pre.room_idx(
                nbr_x(a, e),
                nbr_y(b, e),
            )],
    ensures
        forall|x: int, y: int|
            lab.valid_room(x, y) ==> #[trigger] lab.room_info_at(x, y) == lab0.room_info_at(x, y),
        forall|i: int| 0 <= i < st1.len() ==> lab.valid_point(#[trigger] st1[i]),
        st1[0] == (Point(0, 0)),
        forall|i: int|
            #![trigger st1[i]]
            0 <= i < st1.len() - 1 ==> e1[st1[i].1 * w + st1[i].0],
        forall|i: int|
            #![trigger st1[i]]
            0 <= i < st1.len() ==> lab.connected((0, 0), (st1[i].0 as int, st1[i].1 as int)),
        forall|i: int| 0 <= i < total && #[trigger] e1[i] ==> lab.connected((0, 0), (i % w, i / w)),
        forall|x: int, y: int, e: Direction|
            lab.valid_room(x, y) && lab.has_neighbour(x, y, e) && !(#[trigger] lab.wall_at(
                x,
                y,
                e,
            )) ==> seen(e1, st1, w, x, y) && seen(e1, st1, w, nbr_x(x, e), nbr_y(y, e)),
        forall|a: int, b: int, e: Direction|
            #![trigger e1[lab.room_idx(a, b)], lab.has_neighbour(a, b, e)]
            lab.valid_room(a, b) && e1[lab.room_idx(a, b)] && !on_stack(st1, a, b)
                && lab.has_neighbour(a, b, e) ==> e1[lab.room_idx(nbr_x(a, e), nbr_y(b, e))],
{
    let px = top.0 as int;
    let py = top.1 as int;
    lab_pre.lemma_neighbour_symmetric(px, py, d);
    lab_pre.lemma_room_idx_inverse(px, py);
    lemma_push_reach(lab_pre, lab, e1, st0, st1, top, d, q, w, total);
    lemma_push_seen(lab_pre, lab, e0, e1, st0, st1, top, tix, d, q, w, total);
    lemma_push_closed(lab_pre, lab, e0, e1, st0, st1, top, tix, q, w, total);
    assert forall|i: int| #![trigger st1[i]] 0 <= i < st1.len() - 1 implies e1[st1[i].1 * w
        + st1[i].0] by {
        if i < st0.len() - 1 {
            assert(st1[i] == st0[i]);
            lab_pre.lemma_room_idx_bounds(st0[i].0 as int, st0[i].1 as int);
            assert(e0[st0[i].1 * w + st0[i].0]);
        } else {
            assert(st1[i] == top);
            assert(e1[tix]);
        }
    }
}

/// After a backtracking step (marking a dead-end top explored and popping
/// it) the walk's invariants still hold.
#[verifier::rlimit(100)]
proof fn lemma_pop_invariants<R, W>(
    lab: FlatLabyrinth<R, W>,
    e0: Seq<bool>,
    e1: Seq<bool>,
    sth: Seq<Point>,
    st1: Seq<Point>,
    top: Point,
    tix: int,
    w: int,
    h: int,
    total: int,
)
    requires
        lab.wf(),
        lab.width == w,
        lab.height == h,
        1 <= w,
        1 <= h,
        total == w * h,
        e0.len() == total,
        e1 == e0.update(tix, true),
        0 <= tix < total,
        tix == top.1 * w + top.0,
        sth.len() > 0,
        sth.last() == top,
        sth[0] == (Point(0, 0)),
        st1 == sth.drop_last(),
        lab.valid_point(top),
        forall|i: int| 0 <= i < sth.len() ==> lab.valid_point(#[trigger] sth[i]),
        forall|i: int|
            #![trigger sth[i]]
            0 <= i < sth.len() - 1 ==> e0[sth[i].1 * w + sth[i].0],
        forall|x: int, y: int, e: Direction|
            lab.valid_room(x, y) && lab.has_neighbour(x, y, e) && !(#[trigger] lab.wall_at(
                x,
                y,
                e,
            )) ==> seen(e0, sth, w, x, y) && seen(e0, sth, w, nbr_x(x, e), nbr_y(y, e)),
        forall|a: int, b: int, e: Direction|
            #![trigger e0[lab.room_idx(a, b)], lab.has_neighbour(a, b, e)]
            lab.valid_room(a, b) && e0[lab.room_idx(a, b)] && !on_stack(sth, a, b)
                && lab.has_neighbour(a, b, e) ==> e0[lab.room_idx(nbr_x(a, e), nbr_y(b, e))],
        forall|e: Direction|
            lab.has_neighbour(top.0 as int, top.1 as int, e) ==> e1[#[trigger] lab.room_idx(
                nbr_x(top.0 as int, e),
                nbr_y(top.1 as int, e),
            )],
    ensures
        forall|i: int|
            #![trigger st1[i]]
            0 <= i < st1.len() - 1 ==> e1[st1[i].1 * w + st1[i].0],
        st1.len() > 0 ==> st1[0] == (Point(0, 0)),
        st1.len() > 0 ==> e1[st1.last().1 * w + st1.last().0],
        st1.len() == 0 ==> e1[0],
        forall|x: int, y: int, e: Direction|
            lab.valid_room(x, y) && lab.has_neighbour(x, y, e) && !(#[trigger] lab.wall_at(
                x,
                y,
                e,
            )) ==> seen(e1, st1, w, x, y) && seen(e1, st1, w, nbr_x(x, e), nbr_y(y, e)),
        forall|a: int, b: int, e: Direction|
            #![trigger e1[lab.room_idx(a, b)], lab.has_neighbour(a, b, e)]
            lab.valid_room(a, b) && e1[lab.room_idx(a, b)] && !on_stack(st1, a, b)
                && lab.has_neighbour(a, b, e) ==> e1[lab.room_idx(nbr_x(a, e), nbr_y(b, e))],
{
    let px = top.0 as int;
    let py = top.1 as int;
    lab.lemma_room_idx_inverse(px, py);
    assert forall|i: int| 0 <= i < st1.len() implies st1[i] == sth[i] by {}
    assert forall|i: int|
        #![trigger st1[i]]
        0 <= i < st1.len() - 1 implies e1[st1[i].1 * w + st1[i].0] by {
        lab.lemma_room_idx_bounds(st1[i].0 as int, st1[i].1 as int);
        assert(e0[st1[i].1 * w + st1[i].0]);
    }
    if st1.len() > 0 {
        assert(st1.last() == sth[sth.len() - 2]);
        lab.lemma_room_idx_bounds(st1.last().0 as int, st1.last().1 as int);
        assert(e0[st1.last().1 * w + st1.last().0]);
        assert(e1[st1.last().1 * w + st1.last().0]);
    } else {
        assert(sth.len() == 1);
        assert(top == sth[0]);
        assert(top.1 * w == 0) by (nonlinear_arith)
            requires
                top.1 == 0,
        ;
        assert(tix == 0);
        assert(e1[0]);
    }
    // whatever was seen at the start of the round is explored by now
    assert forall|x: int, y: int, e: Direction|
        lab.valid_room(x, y) && lab.has_neighbour(x, y, e) && !(#[trigger] lab.wall_at(
            x,
            y,
            e,
        )) implies seen(e1, st1, w, x, y) && seen(e1, st1, w, nbr_x(x, e), nbr_y(y, e)) by {
        lab.lemma_neighbour_symmetric(x, y, e);
        lab.lemma_room_idx_bounds(x, y);
        lab.lemma_room_idx_bounds(nbr_x(x, e), nbr_y(y, e));
        let bx = nbr_x(x, e);
        let by = nbr_y(y, e);
        assert(seen(e0, sth, w, x, y) && seen(e0, sth, w, bx, by));
        assert(e1[py * w + px]);
        assert(e1[y * w + x]);
        assert(e1[by * w + bx]);
    }
    // the popped room is a dead end, every other off-stack room was off
    // the stack before
    assert forall|a: int, b: int, e: Direction|
        #![trigger e1[lab.room_idx(a, b)], lab.has_neighbour(a, b, e)]
        lab.valid_room(a, b) && e1[lab.room_idx(a, b)] && !on_stack(st1, a, b)
            && lab.has_neighbour(a, b, e) implies e1[lab.room_idx(nbr_x(a, e), nbr_y(b, e))] by {
        lab.lemma_room_idx_inverse(a, b);
        lab.lemma_neighbour_symmetric(a, b, e);
        lab.lemma_room_idx_bounds(nbr_x(a, e), nbr_y(b, e));
        if !(a == px && b == py) {
            assert(lab.room_idx(a, b) != tix);
            assert(e0[lab.room_idx(a, b)]);
            assert(!on_stack(sth, a, b)) by {
                if on_stack(sth, a, b) {
                    let i = choose|i: int|
                        0 <= i < sth.len() && (#[trigger] sth[i]).0 == a && sth[i].1 == b;
                    if i < st1.len() {
                        assert(st1[i] == sth[i]);
                        assert(on_stack(st1, a, b));
                    } else {
                        assert(sth[i] == top);
                    }
                }
            }
            assert(e0[lab.room_idx(nbr_x(a, e), nbr_y(b, e))]);
        }
    }
}

/// Carves a spanning tree of open passages through a fully walled
/// labyrinth by a randomized depth-first walk, drawing its choices from
/// `chooser`.  Afterwards every room is reachable from the fixed start
/// room and exactly `width * height - 1` passages are open.
#[verifier::rlimit(100)]
pub fn carve<R, W>(lab: &mut FlatLabyrinth<R, W>, chooser: &mut Chooser)
    requires
        old(lab).inv(),
        1 <= old(lab).width,
        1 <= old(lab).height,
        old(lab).fully_walled(),
    ensures
        final(lab).inv(),
        final(lab).width == old(lab).width,
        final(lab).height == old(lab).height,
        forall|x: int, y: int|
            final(lab).valid_room(x, y) ==> #[trigger] final(lab).connected((0, 0), (x, y)),
        final(lab).open_count() == old(lab).width * old(lab).height - 1,
        forall|x: int, y: int|
            old(lab).valid_room(x, y) ==> #[trigger] final(lab).room_info_at(x, y) == old(
                lab,
            ).room_info_at(x, y),
{
    let ghost lab0 = *lab;
    let w = lab.width;
    let h = lab.height;
    proof {
        assert(lab.rooms.len() <= usize::MAX);
        assert(1 <= w * h) by (nonlinear_arith)
            requires
                1 <= w,
                1 <= h,
        ;
        lab0.lemma_fully_walled_open_count();
    }
    let total = w * h;
    let mut explored: Vec<bool> = Vec::new();
    let mut k: usize = 0;
    while k < total
        invariant
            k <= total,
            explored@.len() == k,
            forall|j: int| 0 <= j < k ==> !(#[trigger] explored@[j]),
        decreases total - k,
    {
        explored.push(false);
        k = k + 1;
    }
    proof {
        lemma_count_true_none(explored@);
    }
    let mut stack: Vec<Point> = Vec::new();
    let start = lab.random_room();
    stack.push(start);
    proof {
        lab.lemma_connected_refl((0, 0));
        assert(stack@.last() == (Point(0, 0)));
        assert(!explored@[0]);
        assert(lab.open_count() == 0);
        assert forall|a: int, b: int, d: Direction|
            #![trigger explored@[lab.room_idx(a, b)], lab.has_neighbour(a, b, d)]
            lab.valid_room(a, b) && explored@[lab.room_idx(a, b)] && !on_stack(stack@, a, b)
                && lab.has_neighbour(a, b, d) implies explored@[lab.room_idx(
                nbr_x(a, d),
                nbr_y(b, d),
            )] by {
            lab.lemma_room_idx_bounds(a, b);
            assert(!explored@[lab.room_idx(a, b)]);
        }
    }
    while stack.len() != 0
        invariant
            lab.inv(),
            lab.width == w,
            lab.height == h,
            lab0.width == w,
            lab0.height == h,
            1 <= w,
            1 <= h,
            total == w * h,
            explored@.len() == total,
            0 <= count_true(explored@) <= total,
            forall|x: int, y: int|
                lab.valid_room(x, y) ==> #[trigger] lab.room_info_at(x, y) == lab0.room_info_at(
                    x,
                    y,
                ),
            forall|i: int| 0 <= i < stack@.len() ==> lab.valid_point(#[trigger] stack@[i]),
            stack@.len() > 0 ==> stack@[0] == (Point(0, 0)),
            forall|i: int|
                #![trigger stack@[i]]
                0 <= i < stack@.len() - 1 ==> explored@[stack@[i].1 * w + stack@[i].0],
            forall|i: int|
                #![trigger stack@[i]]
                0 <= i < stack@.len() ==> lab.connected(
                    (0, 0),
                    (stack@[i].0 as int, stack@[i].1 as int),
                ),
            forall|i: int|
                0 <= i < total && #[trigger] explored@[i] ==> lab.connected(
                    (0, 0),
                    (i % (w as int), i / (w as int)),
                ),
            forall|x: int, y: int, d: Direction|
                lab.valid_room(x, y) && lab.has_neighbour(x, y, d) && !(#[trigger] lab.wall_at(
                    x,
                    y,
                    d,
                )) ==> seen(explored@, stack@, w as int, x, y) && seen(
                    explored@,
                    stack@,
                    w as int,
                    nbr_x(x, d),
                    nbr_y(y, d),
                ),
            forall|a: int, b: int, d: Direction|
                #![trigger explored@[lab.room_idx(a, b)], lab.has_neighbour(a, b, d)]
                lab.valid_room(a, b) && explored@[lab.room_idx(a, b)] && !on_stack(stack@, a, b)
                    && lab.has_neighbour(a, b, d) ==> explored@[lab.room_idx(
                    nbr_x(a, d),
                    nbr_y(b, d),
                )],
            stack@.len() > 0 ==> lab.open_count() == count_true(explored@) + (
            if explored@[stack@.last().1 * w + stack@.last().0] {
                0
            } else {
                1 as int
            }) - 1,
            stack@.len() == 0 ==> lab.open_count() == count_true(explored@) - 1,
            stack@.len() == 0 ==> explored@[0],
        decreases 3 * (total - count_true(explored@)) + stack@.len() + (if stack@.len() > 0 && !(
        explored@[stack@.last().1 * w + stack@.last().0]) {
            0
        } else {
            2 as int
        }),
    {
        let top = stack[stack.len() - 1];
        let tix = lab.coord_to_index(top);
        proof {
            lab.lemma_room_idx_inverse(top.0 as int, top.1 as int);
        }
        let ghost e0 = explored@;
        explored[tix] = true;
        proof {
            lemma_count_true_update(e0, tix as int);
            lemma_count_true_bounds(explored@);
            assert(lab.connected((0, 0), (top.0 as int, top.1 as int)));
            assert forall|i: int| 0 <= i < total && #[trigger] explored@[i] implies lab.connected(
                (0, 0),
                (i % (w as int), i / (w as int)),
            ) by {
                if i != tix {
                    assert(e0[i]);
                } else {
                    assert(i % (w as int) == top.0 as int && i / (w as int) == top.1 as int);
                }
            }
        }
        let ghost e1 = explored@;
        let mut avail: Vec<Direction> = Vec::new();
        match lab.get_neighbour(top, Direction::North) {
            Some(q) => {
                let qix = lab.coord_to_index(q);
                if !explored[qix] {
                    avail.push(Direction::North);
                }
            },
            None => {},
        }
        match lab.get_neighbour(top, Direction::East) {
            Some(q) => {
                let qix = lab.coord_to_index(q);
                if !explored[qix] {
                    avail.push(Direction::East);
                }
            },
            None => {},
        }
        match lab.get_neighbour(top, Direction::South) {
            Some(q) => {
                let qix = lab.coord_to_index(q);
                if !explored[qix] {
                    avail.push(Direction::South);
                }
            },
            None => {},
        }
        match lab.get_neighbour(top, Direction::West) {
            Some(q) => {
                let qix = lab.coord_to_index(q);
                if !explored[qix] {
                    avail.push(Direction::West);
                }
            },
            None => {},
        }
        proof {
            assert forall|i: int| 0 <= i < avail@.len() implies lab.has_neighbour(
                top.0 as int,
                top.1 as int,
                #[trigger] avail@[i],
            ) && !explored@[lab.room_idx(
                nbr_x(top.0 as int, avail@[i]),
                nbr_y(top.1 as int, avail@[i]),
            )] by {}
        }
        if avail.len() > 0 {
            let ghost lab_pre = *lab;
            let ghost st0 = stack@;
            let ki = chooser.choose_below(avail.len());
            let d = avail[ki];
            proof {
                let px = top.0 as int;
                let py = top.1 as int;
                let qx = nbr_x(px, d);
                let qy = nbr_y(py, d);
                assert(lab.has_neighbour(px, py, d));
                lab_pre.lemma_neighbour_symmetric(px, py, d);
                lab_pre.lemma_room_idx_inverse(qx, qy);
                assert(!explored@[lab.room_idx(qx, qy)]);
                // the wall towards the unexplored neighbour must still stand
                assert(lab.wall_at(px, py, d)) by {
                    if !lab.wall_at(px, py, d) {
                        assert(seen(e0, st0, w as int, qx, qy));
                        assert(st0.last() == top);
                        assert(!(qx == px && qy == py));
                        assert(!e1[qy * w + qx]);
                        assert(!e0[qy * w + qx]);
                    }
                }
            }
            lab.remove_wall(top, d);
            let q = lab.get_neighbour(top, d).unwrap();
            stack.push(q);
            proof {
                lemma_push_invariants(
                    lab0,
                    lab_pre,
                    *lab,
                    e0,
                    e1,
                    st0,
                    stack@,
                    top,
                    tix as int,
                    d,
                    q,
                    w as int,
                    h as int,
                    total as int,
                );
                assert(stack@.last() == q);
                assert(!explored@[q.1 * w + q.0]);
                assert(lab.open_count() == count_true(explored@) + 1 - 1);
            }
        } else {
            let ghost sth = stack@;
            let _ = stack.pop();
            proof {
                let px = top.0 as int;
                let py = top.1 as int;
                // a dead end: every neighbour of the popped room is explored
                assert forall|e: Direction|
                    lab.has_neighbour(px, py, e) implies explored@[#[trigger] lab.room_idx(
                    nbr_x(px, e),
                    nbr_y(py, e),
                )] by {
                    if e == Direction::North {
                    } else if e == Direction::East {
                    } else if e == Direction::South {
                    } else {
                        assert(e == Direction::West);
                    }
                }
                lemma_pop_invariants(
                    *lab,
                    e0,
                    e1,
                    sth,
                    stack@,
                    top,
                    tix as int,
                    w as int,
                    h as int,
                    total as int,
                );
            }
        }
    }
    proof {
        // the stack is empty: the explored set contains the origin and is
        // closed under stepping to neighbours, hence covers the grid
        assert forall|a: int, b: int, d: Direction|
            #![trigger explored@[lab.room_idx(a, b)], lab.has_neighbour(a, b, d)]
            lab.valid_room(a, b) && explored@[lab.room_idx(a, b)] && lab.has_neighbour(
                a,
                b,
                d,
            ) implies explored@[lab.room_idx(nbr_x(a, d), nbr_y(b, d))] by {
            assert(!on_stack(stack@, a, b));
        }
        assert forall|x: int, y: int| lab.valid_room(x, y) implies #[trigger] lab.connected(
            (0, 0),
            (x, y),
        ) by {
            lab.lemma_room_idx_inverse(x, y);
            lemma_closed_covers(*lab, explored@, x, y);
            assert(explored@[lab.room_idx(x, y)]);
        }
        assert forall|j: int| 0 <= j < explored@.len() implies #[trigger] explored@[j] by {
            lab.lemma_index_coords(j);
            lemma_closed_covers(*lab, explored@, j % (w as int), j / (w as int));
        }
        lemma_count_true_all(explored@);
    }
}

/// The spanning law: once every room is reachable from the start room, as
/// the carving walk guarantees, any two rooms of the grid reach each other
/// through open passages.
pub proof fn lemma_spanning_all_pairs<R, W>(
    lab: FlatLabyrinth<R, W>,
    a: (int, int),
    b: (int, int),
)
    requires
        lab.inv(),
        forall|x: int, y: int| lab.valid_room(x, y) ==> #[trigger] lab.connected((0, 0), (x, y)),
        lab.valid_room(a.0, a.1),
        lab.valid_room(b.0, b.1),
    ensures
        lab.connected(a, b),
{
    assert(lab.connected((0, 0), (a.0, a.1)));
    assert(lab.connected((0, 0), (b.0, b.1)));
    lab.lemma_connected_through((0, 0), a, b);
}

/// Carves a spanning tree through a fully walled labyrinth, drawing every
/// choice from the thread's random number generator.
pub fn random_walk<R, W>(lab: &mut FlatLabyrinth<R, W>)
    requires
        old(lab).inv(),
        1 <= old(lab).width,
        1 <= old(lab).height,
        old(lab).fully_walled(),
    ensures
        final(lab).inv(),
        final(lab).width == old(lab).width,
        final(lab).height == old(lab).height,
        forall|x: int, y: int|
            final(lab).valid_room(x, y) ==> #[trigger] final(lab).connected((0, 0), (x, y)),
        final(lab).open_count() == old(lab).width * old(lab).height - 1,
        forall|x: int, y: int|
            old(lab).valid_room(x, y) ==> #[trigger] final(lab).room_info_at(x, y) == old(
                lab,
            ).room_info_at(x, y),
{
    let mut chooser = Chooser::Random;
    carve(lab, &mut chooser);
}

} // verus!
