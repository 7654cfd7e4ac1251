//! An object placed in a bin: a `Dimension` whose upper-left content corner is at `(x, y)`.
use vstd::prelude::*;

use crate::dimension::{get_unique_id, Dimension};

verus! {

/// `a + b`, bound by `i32::MIN` and `i32::MAX`.
pub open spec fn sat_add(a: i32, b: i32) -> i32 {
    if a + b > i32::MAX {
        i32::MAX
    } else if a + b < i32::MIN {
        i32::MIN
    } else {
        (a + b) as i32
    }
}

fn saturating_add_i32(a: i32, b: i32) -> (r: i32)
    ensures
        r == sat_add(a, b),
{
    let s = a as i64 + b as i64;
    if s > i32::MAX as i64 {
        i32::MAX
    } else if s < i32::MIN as i64 {
        i32::MIN
    } else {
        s as i32
    }
}

/// A `Dimension` positioned with its content's upper-left corner at `(x, y)`.
///
/// The padded area starts at `(x - padding, y - padding)`.
#[derive(Clone, Copy, Debug, PartialEq, Eq, Structural, PartialOrd, Ord)]
pub struct Rectangle {
    x: i32,
    y: i32,
    dim: Dimension,
}

impl Rectangle {
    pub closed spec fn spec_x(&self) -> i32 {
        self.x
    }

    pub closed spec fn spec_y(&self) -> i32 {
        self.y
    }

    pub closed spec fn spec_dim(&self) -> Dimension {
        self.dim
    }

    /// The `Rectangle` with these fields.
    pub closed spec fn spec_new(x: i32, y: i32, dim: Dimension) -> Rectangle {
        Rectangle { x, y, dim }
    }

    /// What `spec_new` holds.
    pub proof fn lemma_spec_new(x: i32, y: i32, dim: Dimension)
        ensures
            Self::spec_new(x, y, dim).spec_x() == x,
            Self::spec_new(x, y, dim).spec_y() == y,
            Self::spec_new(x, y, dim).spec_dim() == dim,
    {
    }

    pub open spec fn spec_id(&self) -> isize {
        self.spec_dim().spec_id()
    }

    pub open spec fn spec_width(&self) -> i32 {
        self.spec_dim().spec_width()
    }

    pub open spec fn spec_height(&self) -> i32 {
        self.spec_dim().spec_height()
    }

    pub open spec fn spec_padding(&self) -> i32 {
        self.spec_dim().spec_padding()
    }

    /// Left edge of the content.
    pub open spec fn left(&self) -> int {
        self.spec_x() as int
    }

    /// Right edge of the content (exclusive).
    pub open spec fn right(&self) -> int {
        self.spec_x() + self.spec_width()
    }

    /// Upper edge of the content.
    pub open spec fn top(&self) -> int {
        self.spec_y() as int
    }

    /// Lower edge of the content (exclusive).
    pub open spec fn bottom(&self) -> int {
        self.spec_y() + self.spec_height()
    }

    /// Left edge of the padded area.
    pub open spec fn left_total(&self) -> int {
        self.spec_x() - self.spec_padding()
    }

    /// Right edge of the padded area (exclusive).
    pub open spec fn right_total(&self) -> int {
        self.spec_x() + self.spec_width() + self.spec_padding()
    }

    /// Upper edge of the padded area.
    pub open spec fn top_total(&self) -> int {
        self.spec_y() - self.spec_padding()
    }

    /// Lower edge of the padded area (exclusive).
    pub open spec fn bottom_total(&self) -> int {
        self.spec_y() + self.spec_height() + self.spec_padding()
    }

    pub open spec fn spec_is_empty(&self) -> bool {
        self.spec_width() == 0 || self.spec_height() == 0
    }

    /// The content areas of both rectangles share a point, and neither is empty.
    pub open spec fn spec_intersects(&self, r: &Rectangle) -> bool {
        &&& !self.spec_is_empty()
        &&& !r.spec_is_empty()
        &&& self.left() < r.right()
        &&& r.left() < self.right()
        &&& self.top() < r.bottom()
        &&& r.top() < self.bottom()
    }

    /// The content of `r` lies within the content of `self`.
    pub open spec fn spec_contains(&self, r: &Rectangle) -> bool {
        &&& self.left() <= r.left()
        &&& self.top() <= r.top()
        &&& r.right() <= self.right()
        &&& r.bottom() <= self.bottom()
    }

    /// The padded area of `r` lies within the padded area of `self`.
    pub open spec fn spec_contains_total(&self, r: &Rectangle) -> bool {
        &&& self.left_total() <= r.left_total()
        &&& self.top_total() <= r.top_total()
        &&& r.right_total() <= self.right_total()
        &&& r.bottom_total() <= self.bottom_total()
    }

    /// Creates a `Rectangle` whose content's upper-left corner is at `(x, y)`.
    pub fn new(x: i32, y: i32, dim: Dimension) -> (r: Rectangle)
        ensures
            r == Self::spec_new(x, y, dim),
            r.spec_x() == x,
            r.spec_y() == y,
            r.spec_dim() == dim,
    {
        Rectangle { x, y, dim }
    }

    pub fn x(&self) -> (r: i32)
        ensures
            r == self.spec_x(),
    {
        self.x
    }

    /// The x coordinate of the padded area.
    pub fn x_total(&self) -> (r: i64)
        ensures
            r == self.left_total(),
    {
        self.x as i64 - self.dim.padding() as i64
    }

    pub fn y(&self) -> (r: i32)
        ensures
            r == self.spec_y(),
    {
        self.y
    }

    /// The y coordinate of the padded area.
    pub fn y_total(&self) -> (r: i64)
        ensures
            r == self.top_total(),
    {
        self.y as i64 - self.dim.padding() as i64
    }

    pub fn set_x(&mut self, x: i32)
        ensures
            final(self).spec_x() == x,
            final(self).spec_y() == old(self).spec_y(),
            final(self).spec_dim() == old(self).spec_dim(),
    {
        self.x = x;
    }

    /// Moves the padded area's left edge to `x`.
    pub fn set_x_total(&mut self, x: i32)
        requires
            x + old(self).spec_padding() <= i32::MAX,
        ensures
            final(self).left_total() == x,
            final(self).spec_y() == old(self).spec_y(),
            final(self).spec_dim() == old(self).spec_dim(),
    {
        self.x = x + self.dim.padding();
    }

    pub fn set_y(&mut self, y: i32)
        ensures
            final(self).spec_x() == old(self).spec_x(),
            final(self).spec_y() == y,
            final(self).spec_dim() == old(self).spec_dim(),
    {
        self.y = y;
    }

    /// Moves the padded area's upper edge to `y`.
    pub fn set_y_total(&mut self, y: i32)
        requires
            y + old(self).spec_padding() <= i32::MAX,
        ensures
            final(self).spec_x() == old(self).spec_x(),
            final(self).top_total() == y,
            final(self).spec_dim() == old(self).spec_dim(),
    {
        self.y = y + self.dim.padding();
    }

    pub fn set_location(&mut self, x: i32, y: i32)
        ensures
            final(self).spec_x() == x,
            final(self).spec_y() == y,
            final(self).spec_dim() == old(self).spec_dim(),
    {
        self.x = x;
        self.y = y;
    }

    /// Moves the padded area's upper-left corner to `(x, y)`.
    pub fn set_location_total(&mut self, x: i32, y: i32)
        requires
            x + old(self).spec_padding() <= i32::MAX,
            y + old(self).spec_padding() <= i32::MAX,
        ensures
            final(self).left_total() == x,
            final(self).top_total() == y,
            final(self).spec_dim() == old(self).spec_dim(),
    {
        let p = self.dim.padding();
        self.x = x + p;
        self.y = y + p;
    }

    /// Moves the rectangle by `dx` to the right and `dy` downward; coordinates are bound by
    /// `i32::MIN` and `i32::MAX`.
    pub fn translate(&mut self, dx: i32, dy: i32)
        ensures
            final(self).spec_x() == sat_add(old(self).spec_x(), dx),
            final(self).spec_y() == sat_add(old(self).spec_y(), dy),
            final(self).spec_dim() == old(self).spec_dim(),
    {
        self.x = saturating_add_i32(self.x, dx);
        self.y = saturating_add_i32(self.y, dy);
    }

    pub fn id(&self) -> (r: isize)
        ensures
            r == self.spec_id(),
    {
        self.dim.id()
    }

    pub fn width(&self) -> (r: i32)
        ensures
            r == self.spec_width(),
            r >= 0,
    {
        self.dim.width()
    }

    /// Width including the padding on both sides.
    pub fn width_total(&self) -> (r: i64)
        ensures
            r == self.spec_dim().spec_width_total(),
            r >= 0,
    {
        self.dim.width_total()
    }

    pub fn height(&self) -> (r: i32)
        ensures
            r == self.spec_height(),
            r >= 0,
    {
        self.dim.height()
    }

    /// Height including the padding on both sides.
    pub fn height_total(&self) -> (r: i64)
        ensures
            r == self.spec_dim().spec_height_total(),
            r >= 0,
    {
        self.dim.height_total()
    }

    pub fn dim(&self) -> (r: &Dimension)
        ensures
            *r == self.spec_dim(),
    {
        &self.dim
    }

    pub fn dim_mut(&mut self) -> (r: &mut Dimension)
        ensures
            *r == old(self).spec_dim(),
            final(self).spec_x() == old(self).spec_x(),
            final(self).spec_y() == old(self).spec_y(),
            final(self).spec_dim() == *final(r),
    {
        &mut self.dim
    }

    /// `true` if width or height is 0; padding is not counted.
    pub fn is_empty(&self) -> (r: bool)
        ensures
            r == self.spec_is_empty(),
    {
        self.dim.is_empty()
    }

    /// Whether the content of `rect` lies within the content of `self`.
    pub fn contains(&self, rect: &Rectangle) -> (r: bool)
        ensures
            r == self.spec_contains(rect),
    {
        let sx = self.x as i64;
        let sy = self.y as i64;
        let rx = rect.x as i64;
        let ry = rect.y as i64;
        rx >= sx && ry >= sy && rx + rect.width() as i64 <= sx + self.width() as i64 && ry
            + rect.height() as i64 <= sy + self.height() as i64
    }

    /// Whether the padded area of `rect` lies within the padded area of `self`.
    pub fn contains_total(&self, rect: &Rectangle) -> (r: bool)
        ensures
            r == self.spec_contains_total(rect),
    {
        let sx = self.x_total();
        let sy = self.y_total();
        let rx = rect.x_total();
        let ry = rect.y_total();
        rx >= sx && ry >= sy && rx + rect.width_total() <= sx + self.width_total() && ry
            + rect.height_total() <= sy + self.height_total()
    }

    /// Whether the content areas of `self` and `rect` overlap; an empty rectangle overlaps
    /// nothing.
    pub fn intersects(&self, rect: &Rectangle) -> (r: bool)
        ensures
            r == self.spec_intersects(rect),
    {
        let tw = self.width() as i64;
        let th = self.height() as i64;
        let rw = rect.width() as i64;
        let rh = rect.height() as i64;
        if rw == 0 || rh == 0 || tw == 0 || th == 0 {
            return false;
        }
        let tx = self.x as i64;
        let ty = self.y as i64;
        let rx = rect.x as i64;
        let ry = rect.y as i64;
        rx + rw > tx && ry + rh > ty && tx + tw > rx && ty + th > ry
    }

    /// The smallest rectangle that holds the content of both, with the larger padding of
    /// the two and identifier `id`, or a fresh one where `id` is `None`.
    pub fn union(&self, rect: &Rectangle, id: Option<isize>) -> (r: Rectangle)
        requires
            max_int(self.right(), rect.right()) - min_int(self.left(), rect.left()) <= i32::MAX,
            max_int(self.bottom(), rect.bottom()) - min_int(self.top(), rect.top()) <= i32::MAX,
        ensures
            r.left() == min_int(self.left(), rect.left()),
            r.top() == min_int(self.top(), rect.top()),
            r.right() == max_int(self.right(), rect.right()),
            r.bottom() == max_int(self.bottom(), rect.bottom()),
            r.spec_padding() == max_int(
                self.spec_padding() as int,
                rect.spec_padding() as int,
            ),
            match id {
                Some(v) => r.spec_id() == v,
                None => r.spec_id() >= 1,
            },
            r == Rectangle::spec_new(
                min_int(self.left(), rect.left()) as i32,
                min_int(self.top(), rect.top()) as i32,
                Dimension::spec_with_id(
                    r.spec_id(),
                    (max_int(self.right(), rect.right()) - min_int(self.left(), rect.left())) as i32,
                    (max_int(self.bottom(), rect.bottom()) - min_int(self.top(), rect.top())) as i32,
                    max_int(self.spec_padding() as int, rect.spec_padding() as int) as i32,
                ),
            ),
    {
        let min_x = if self.x <= rect.x {
            self.x
        } else {
            rect.x
        };
        let min_y = if self.y <= rect.y {
            self.y
        } else {
            rect.y
        };
        let sr = self.x as i64 + self.width() as i64;
        let rr = rect.x as i64 + rect.width() as i64;
        let max_x = if sr >= rr {
            sr
        } else {
            rr
        };
        let sb = self.y as i64 + self.height() as i64;
        let rb = rect.y as i64 + rect.height() as i64;
        let max_y = if sb >= rb {
            sb
        } else {
            rb
        };
        let width = (max_x - min_x as i64) as i32;
        let height = (max_y - min_y as i64) as i32;
        let id = match id {
            Some(v) => v,
            None => get_unique_id(),
        };
        let sp = self.dim.padding();
        let rp = rect.dim.padding();
        let padding = if sp >= rp {
            sp
        } else {
            rp
        };
        Rectangle { x: min_x, y: min_y, dim: Dimension::with_id(id, width, height, padding) }
    }
}

impl Default for Rectangle {
    /// An empty rectangle at the origin, whose `Dimension` has a fresh identifier.
    fn default() -> (r: Self)
        ensures
            r.spec_x() == 0,
            r.spec_y() == 0,
            r.spec_width() == 0,
            r.spec_height() == 0,
            r.spec_padding() == 0,
            r.spec_id() >= 1,
    {
        Rectangle::new(0, 0, Dimension::new(0, 0))
    }
}

impl From<Dimension> for Rectangle {
    /// Places `value` at the origin.
    fn from(value: Dimension) -> (r: Rectangle) {
        Rectangle::new(0, 0, value)
    }
}

impl vstd::std_specs::convert::FromSpecImpl<Dimension> for Rectangle {
    open spec fn obeys_from_spec() -> bool {
        true
    }

    open spec fn from_spec(v: Dimension) -> Rectangle {
        Rectangle::spec_new(0, 0, v)
    }
}

pub open spec fn min_int(a: int, b: int) -> int {
    if a <= b {
        a
    } else {
        b
    }
}

pub open spec fn max_int(a: int, b: int) -> int {
    if a >= b {
        a
    } else {
        b
    }
}

} // verus!
