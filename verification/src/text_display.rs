//! A character canvas with scoped sub-regions.
//!
//! `TextSurface` owns a rectangular character buffer with its origin at the
//! mathematical bottom-left.  `TextSurfaceFocus` is a lightweight value
//! describing an offset, bounded sub-region of a surface; nested focuses
//! compose by adding offsets and can never escape their parent's bound.
//! Anything that can paint itself onto a focus implements `TextDisplayable`.

use crate::geometry::Offset;
use crate::geometry::Point;
use vstd::prelude::*;

verus! {

/// A width x height character buffer.  Row `0` is the bottom row; emission
/// order (see [`TextSurface::rows`]) is top row first.
pub struct TextSurface {
    pub width: usize,
    pub data: Vec<Vec<char>>,
}

impl TextSurface {
    /// The width of the buffer.
    pub open spec fn width_spec(self) -> int {
        self.width as int
    }

    /// The height of the buffer.
    pub open spec fn height_spec(self) -> int {
        self.data@.len() as int
    }

    /// Every row holds exactly `width` characters.
    pub open spec fn wf(self) -> bool {
        forall|y: int|
            0 <= y < self.data@.len() ==> (#[trigger] self.data@[y])@.len() == self.width
    }

    /// The character stored at column `x` of row `y`.
    pub open spec fn at(self, x: int, y: int) -> char {
        self.data@[y]@[x]
    }

    /// Returns the width of the buffer.
    pub fn width(&self) -> (r: usize)
        ensures
            r == self.width_spec(),
    {
        self.width
    }

    /// Returns the height of the buffer.
    pub fn height(&self) -> (r: usize)
        ensures
            r == self.height_spec(),
    {
        self.data.len()
    }

    /// Makes a blank surface of the given dimensions.
    pub fn new(width: usize, height: usize) -> (r: TextSurface)
        ensures
            r.wf(),
            r.width_spec() == width,
            r.height_spec() == height,
            forall|x: int, y: int|
                0 <= x < width && 0 <= y < height ==> #[trigger] r.at(x, y) == ' ',
    {
        let mut data: Vec<Vec<char>> = Vec::new();
        let mut y: usize = 0;
        while y < height
            invariant
                y <= height,
                data@.len() == y,
                forall|j: int| 0 <= j < y ==> (#[trigger] data@[j])@.len() == width,
                forall|i: int, j: int|
                    0 <= i < width && 0 <= j < y ==> #[trigger] data@[j]@[i] == ' ',
            decreases height - y,
        {
            let mut row: Vec<char> = Vec::new();
            let mut x: usize = 0;
            while x < width
                invariant
                    x <= width,
                    row@.len() == x,
                    forall|i: int| 0 <= i < x ==> #[trigger] row@[i] == ' ',
                decreases width - x,
            {
                row.push(' ');
                x = x + 1;
            }
            data.push(row);
            y = y + 1;
        }
        TextSurface { width, data }
    }

    /// Writes character `c` at point `p` of the buffer.
    pub fn set(&mut self, p: Point, c: char)
        requires
            old(self).wf(),
            p.0 < old(self).width_spec(),
            p.1 < old(self).height_spec(),
        ensures
            final(self).wf(),
            final(self).width_spec() == old(self).width_spec(),
            final(self).height_spec() == old(self).height_spec(),
            final(self).at(p.0 as int, p.1 as int) == c,
            forall|x: int, y: int|
                0 <= x < old(self).width_spec() && 0 <= y < old(self).height_spec()
                    && !(x == p.0 && y == p.1) ==> #[trigger] final(self).at(x, y) == old(
                self,
            ).at(x, y),
    {
        let row = &mut self.data[p.1];
        row[p.0] = c;
    }

    /// A focus covering the whole surface.
    pub fn get_focus(&self) -> (r: TextSurfaceFocus)
        ensures
            r.offset == (Offset(0, 0)),
            r.bound == (Point(self.width_spec() as usize, self.height_spec() as usize)),
            r.valid_for(*self),
    {
        TextSurfaceFocus { offset: Offset(0, 0), bound: Point(self.width, self.data.len()) }
    }

    /// Makes a surface of exactly `obj`'s size and draws `obj` onto it.
    pub fn create_and_draw<T: TextDisplayable>(obj: &T) -> (r: TextSurface)
        requires
            obj.inv_spec(),
        ensures
            r.wf(),
            r.width_spec() == obj.size_spec().0,
            r.height_spec() == obj.size_spec().1,
            forall|x: int, y: int|
                0 <= x < obj.size_spec().0 && 0 <= y < obj.size_spec().1 ==> #[trigger] r.at(x, y)
                    == (if obj.mark_spec(x, y) {
                    '#'
                } else {
                    ' '
                }),
    {
        let size = obj.size();
        let mut surface = TextSurface::new(size.0, size.1);
        let ghost blank = surface;
        let focus = surface.get_focus();
        obj.display(&mut surface, focus);
        proof {
            assert forall|x: int, y: int|
                0 <= x < obj.size_spec().0 && 0 <= y < obj.size_spec().1 implies #[trigger] surface.at(
                x,
                y,
            ) == (if obj.mark_spec(x, y) {
                '#'
            } else {
                ' '
            }) by {
                assert(blank.at(x, y) == ' ');
                assert(surface.at(focus.offset.0 + x, focus.offset.1 + y) == (if obj.mark_spec(
                    x,
                    y,
                ) {
                    '#'
                } else {
                    blank.at(focus.offset.0 + x, focus.offset.1 + y)
                }));
            }
        }
        surface
    }

    /// The rows of the buffer in emission order: the topmost row (highest
    /// `y`) first, the bottom row last.
    pub fn rows(&self) -> (r: Vec<Vec<char>>)
        requires
            self.wf(),
        ensures
            r@.len() == self.height_spec(),
            forall|i: int|
                0 <= i < self.height_spec() ==> (#[trigger] r@[i])@.len() == self.width_spec(),
            forall|i: int, x: int|
                0 <= i < self.height_spec() && 0 <= x < self.width_spec() ==> #[trigger] r@[i]@[x]
                    == self.at(x, self.height_spec() - 1 - i),
    {
        let height = self.data.len();
        let mut out: Vec<Vec<char>> = Vec::new();
        let mut i: usize = 0;
        while i < height
            invariant
                self.wf(),
                height == self.height_spec(),
                i <= height,
                out@.len() == i,
                forall|j: int| 0 <= j < i ==> (#[trigger] out@[j])@.len() == self.width_spec(),
                forall|j: int, x: int|
                    0 <= j < i && 0 <= x < self.width_spec() ==> #[trigger] out@[j]@[x]
                        == self.at(x, height - 1 - j),
            decreases height - i,
        {
            let y = height - 1 - i;
            let mut row: Vec<char> = Vec::new();
            let mut x: usize = 0;
            while x < self.width
                invariant
                    self.wf(),
                    y < self.height_spec(),
                    x <= self.width,
                    row@.len() == x,
                    forall|k: int| 0 <= k < x ==> #[trigger] row@[k] == self.at(k, y as int),
                decreases self.width - x,
            {
                row.push(self.data[y][x]);
                x = x + 1;
            }
            out.push(row);
            i = i + 1;
        }
        out
    }
}

/// A transient view onto a rectangular sub-region of a `TextSurface`,
/// given by an offset into the surface and a bound (the region's size).
#[derive(Clone, Copy, PartialEq, Eq, Debug, Structural)]
pub struct TextSurfaceFocus {
    pub offset: Offset,
    pub bound: Point,
}

impl TextSurfaceFocus {
    /// The focus' region lies inside the surface.
    pub open spec fn valid_for(self, s: TextSurface) -> bool {
        &&& self.offset.0 + self.bound.0 <= s.width_spec()
        &&& self.offset.1 + self.bound.1 <= s.height_spec()
    }

    /// Whether the absolute surface point `(x, y)` lies inside this focus.
    pub open spec fn covers(self, x: int, y: int) -> bool {
        &&& self.offset.0 <= x < self.offset.0 + self.bound.0
        &&& self.offset.1 <= y < self.offset.1 + self.bound.1
    }

    /// Writes character `c` at point `p`, taken relative to this focus.
    pub fn set(&self, surface: &mut TextSurface, p: Point, c: char)
        requires
            old(surface).wf(),
            self.valid_for(*old(surface)),
            p.within_spec(self.bound),
        ensures
            final(surface).wf(),
            final(surface).width_spec() == old(surface).width_spec(),
            final(surface).height_spec() == old(surface).height_spec(),
            final(surface).at(self.offset.0 + p.0, self.offset.1 + p.1) == c,
            forall|x: int, y: int|
                0 <= x < old(surface).width_spec() && 0 <= y < old(surface).height_spec()
                    && !(x == self.offset.0 + p.0 && y == self.offset.1 + p.1)
                    ==> #[trigger] final(surface).at(x, y) == old(surface).at(x, y),
    {
        proof {
            assert(p.0 < self.bound.0 && p.1 < self.bound.1);
            assert(old(surface).data.len() <= usize::MAX);
            assert(p.0 + self.offset.0 <= usize::MAX);
            assert(p.1 + self.offset.1 <= usize::MAX);
        }
        surface.set(p.translate(self.offset), c);
    }

    /// A sub-focus of this focus, shifted by `start`, of size `bound`.  The
    /// sub-region must not exceed this focus' own bound.
    pub fn focus(&self, start: Offset, bound: Point) -> (r: TextSurfaceFocus)
        requires
            start.0 + bound.0 <= self.bound.0,
            start.1 + bound.1 <= self.bound.1,
            self.offset.0 + self.bound.0 <= usize::MAX,
            self.offset.1 + self.bound.1 <= usize::MAX,
        ensures
            r.offset.0 == self.offset.0 + start.0,
            r.offset.1 == self.offset.1 + start.1,
            r.bound == bound,
            forall|s: TextSurface| self.valid_for(s) ==> r.valid_for(s),
    {
        TextSurfaceFocus { offset: self.offset.compose(start), bound }
    }
}

/// An entity that can draw itself onto a focused region of a surface.
///
/// `mark_spec` is the drawing's specification: the set of points of the
/// region, in focus-relative coordinates, that the entity paints `'#'`;
/// every other point of the region is left untouched, as is everything
/// outside the region.
pub trait TextDisplayable {
    /// What a well-formed displayable value looks like; drawing is only
    /// specified for such values.
    spec fn inv_spec(&self) -> bool;

    /// The size of the region the entity needs to draw itself.
    spec fn size_spec(&self) -> Point;

    /// Whether the entity paints a `'#'` at focus-relative point `(x, y)`.
    spec fn mark_spec(&self, x: int, y: int) -> bool;

    /// Returns the size of the region the entity needs.
    fn size(&self) -> (r: Point)
        requires
            self.inv_spec(),
        ensures
            r == self.size_spec(),
    ;

    /// Draws the entity onto the region of `surface` described by `focus`.
    fn display(&self, surface: &mut TextSurface, focus: TextSurfaceFocus)
        requires
            self.inv_spec(),
            old(surface).wf(),
            focus.valid_for(*old(surface)),
            focus.bound == self.size_spec(),
        ensures
            final(surface).wf(),
            final(surface).width_spec() == old(surface).width_spec(),
            final(surface).height_spec() == old(surface).height_spec(),
            forall|x: int, y: int|
                0 <= x < focus.bound.0 && 0 <= y < focus.bound.1
                    ==> #[trigger] final(surface).at(focus.offset.0 + x, focus.offset.1 + y) == (
                if self.mark_spec(x, y) {
                    '#'
                } else {
                    old(surface).at(focus.offset.0 + x, focus.offset.1 + y)
                }),
            forall|x: int, y: int|
                0 <= x < old(surface).width_spec() && 0 <= y < old(surface).height_spec()
                    && !focus.covers(x, y) ==> #[trigger] final(surface).at(x, y) == old(
                surface,
            ).at(x, y),
    ;
}

} // verus!
