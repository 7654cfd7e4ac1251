//! The size of an object to be placed in a bin: width, height, optional padding and an
//! identifier.
use vstd::prelude::*;

verus! {

/// Relies on `rand::random`: a value drawn from the thread-local generator, of which nothing
/// is known.
#[verifier::external_body]
fn draw_isize() -> (r: isize) {
    rand::random::<isize>()
}

/// The identifier that a drawn value `v` gives: its magnitude, or 1 where that is 0 or does
/// not fit.
pub open spec fn id_of(v: isize) -> isize {
    if v == isize::MIN || v == 0 {
        1
    } else if v < 0 {
        (-v) as isize
    } else {
        v
    }
}

/// Returns a fresh identifier for a `Dimension` created without an explicit one.
///
/// Identifiers are drawn at random from the positive range of `isize`, so that independently
/// created objects are told apart with high probability.
pub fn get_unique_id() -> (r: isize)
    ensures
        r >= 1,
        exists|v: isize| r == id_of(v),
{
    let v = draw_isize();
    id_from_draw(v)
}

/// Turns a drawn value into an identifier, as `id_of` says.
pub fn id_from_draw(v: isize) -> (r: isize)
    ensures
        r == id_of(v),
        r >= 1,
{
    if v == isize::MIN || v == 0 {
        1
    } else if v < 0 {
        -v
    } else {
        v
    }
}

/// Clamps a negative value to 0.
pub open spec fn floor0(v: i32) -> i32 {
    if v < 0 {
        0
    } else {
        v
    }
}

fn clamp0(v: i32) -> (r: i32)
    ensures
        r == floor0(v),
{
    if v < 0 {
        0
    } else {
        v
    }
}

/// Width, height and padding of an object, with an identifier.
///
/// Width, height and padding are never negative.
#[derive(Clone, Copy, Debug, PartialEq, Eq, Structural, PartialOrd, Ord)]
pub struct Dimension {
    id: isize,
    width: i32,
    height: i32,
    padding: i32,
}

impl Dimension {
    #[verifier::type_invariant]
    closed spec fn valid(self) -> bool {
        self.width >= 0 && self.height >= 0 && self.padding >= 0
    }

    pub closed spec fn spec_id(&self) -> isize {
        self.id
    }

    pub closed spec fn spec_width(&self) -> i32 {
        self.width
    }

    pub closed spec fn spec_height(&self) -> i32 {
        self.height
    }

    pub closed spec fn spec_padding(&self) -> i32 {
        self.padding
    }

    /// Width including the padding on both sides.
    pub open spec fn spec_width_total(&self) -> int {
        self.spec_width() + 2 * self.spec_padding()
    }

    /// Height including the padding on both sides.
    pub open spec fn spec_height_total(&self) -> int {
        self.spec_height() + 2 * self.spec_padding()
    }

    /// The same `Dimension` turned by 90 degrees.
    pub closed spec fn spec_flipped(&self) -> Dimension {
        Dimension { id: self.id, width: self.height, height: self.width, padding: self.padding }
    }

    /// What a turned `Dimension` holds.
    pub proof fn lemma_flipped(d: Dimension)
        ensures
            d.spec_flipped().spec_id() == d.spec_id(),
            d.spec_flipped().spec_width() == d.spec_height(),
            d.spec_flipped().spec_height() == d.spec_width(),
            d.spec_flipped().spec_padding() == d.spec_padding(),
    {
    }

    /// The values that every `Dimension` holds: nothing negative.
    pub open spec fn nonneg(&self) -> bool {
        self.spec_width() >= 0 && self.spec_height() >= 0 && self.spec_padding() >= 0
    }

    /// Creates a `Dimension` with a fresh identifier and no padding; negative sizes become 0.
    pub fn new(width: i32, height: i32) -> (r: Self)
        ensures
            r.spec_id() >= 1,
            r.spec_width() == floor0(width),
            r.spec_height() == floor0(height),
            r.spec_padding() == 0,
    {
        Self::with_id(get_unique_id(), width, height, 0)
    }

    /// Creates a `Dimension` with a fresh identifier; negative values become 0.
    pub fn with_padding(width: i32, height: i32, padding: i32) -> (r: Self)
        ensures
            r.spec_id() >= 1,
            r.spec_width() == floor0(width),
            r.spec_height() == floor0(height),
            r.spec_padding() == floor0(padding),
    {
        Self::with_id(get_unique_id(), width, height, padding)
    }

    /// The `Dimension` that `with_id` creates.
    pub closed spec fn spec_with_id(id: isize, width: i32, height: i32, padding: i32) -> Dimension {
        Dimension { id, width: floor0(width), height: floor0(height), padding: floor0(padding) }
    }

    /// Creates a `Dimension` with the given identifier; negative values become 0.
    pub fn with_id(id: isize, width: i32, height: i32, padding: i32) -> (r: Self)
        ensures
            r == Self::spec_with_id(id, width, height, padding),
            r.spec_id() == id,
            r.spec_width() == floor0(width),
            r.spec_height() == floor0(height),
            r.spec_padding() == floor0(padding),
    {
        Dimension { id, width: clamp0(width), height: clamp0(height), padding: clamp0(padding) }
    }

    pub fn id(&self) -> (r: isize)
        ensures
            r == self.spec_id(),
    {
        self.id
    }

    pub fn width(&self) -> (r: i32)
        ensures
            r == self.spec_width(),
            r >= 0,
    {
        proof {
            use_type_invariant(self);
        }
        self.width
    }

    /// Width including the padding on both sides.
    pub fn width_total(&self) -> (r: i64)
        ensures
            r == self.spec_width_total(),
            r >= 0,
    {
        proof {
            use_type_invariant(self);
        }
        self.width as i64 + 2 * (self.padding as i64)
    }

    pub fn height(&self) -> (r: i32)
        ensures
            r == self.spec_height(),
            r >= 0,
    {
        proof {
            use_type_invariant(self);
        }
        self.height
    }

    /// Height including the padding on both sides.
    pub fn height_total(&self) -> (r: i64)
        ensures
            r == self.spec_height_total(),
            r >= 0,
    {
        proof {
            use_type_invariant(self);
        }
        self.height as i64 + 2 * (self.padding as i64)
    }

    pub fn padding(&self) -> (r: i32)
        ensures
            r == self.spec_padding(),
            r >= 0,
    {
        proof {
            use_type_invariant(self);
        }
        self.padding
    }

    pub fn set_id(&mut self, value: isize)
        ensures
            final(self).spec_id() == value,
            final(self).spec_width() == old(self).spec_width(),
            final(self).spec_height() == old(self).spec_height(),
            final(self).spec_padding() == old(self).spec_padding(),
    {
        proof {
            use_type_invariant(&*self);
        }
        self.id = value;
    }

    /// Sets the width; a negative value becomes 0.
    pub fn set_width(&mut self, value: i32)
        ensures
            final(self).spec_id() == old(self).spec_id(),
            final(self).spec_width() == floor0(value),
            final(self).spec_height() == old(self).spec_height(),
            final(self).spec_padding() == old(self).spec_padding(),
    {
        proof {
            use_type_invariant(&*self);
        }
        self.width = clamp0(value);
    }

    /// Sets the height; a negative value becomes 0.
    pub fn set_height(&mut self, value: i32)
        ensures
            final(self).spec_id() == old(self).spec_id(),
            final(self).spec_width() == old(self).spec_width(),
            final(self).spec_height() == floor0(value),
            final(self).spec_padding() == old(self).spec_padding(),
    {
        proof {
            use_type_invariant(&*self);
        }
        self.height = clamp0(value);
    }

    /// Sets width and height; negative values become 0.
    pub fn set_dimension(&mut self, width: i32, height: i32)
        ensures
            final(self).spec_id() == old(self).spec_id(),
            final(self).spec_width() == floor0(width),
            final(self).spec_height() == floor0(height),
            final(self).spec_padding() == old(self).spec_padding(),
    {
        proof {
            use_type_invariant(&*self);
        }
        self.width = clamp0(width);
        self.height = clamp0(height);
    }

    /// Sets the padding; a negative value becomes 0.
    pub fn set_padding(&mut self, value: i32)
        ensures
            final(self).spec_id() == old(self).spec_id(),
            final(self).spec_width() == old(self).spec_width(),
            final(self).spec_height() == old(self).spec_height(),
            final(self).spec_padding() == floor0(value),
    {
        proof {
            use_type_invariant(&*self);
        }
        self.padding = clamp0(value);
    }

    /// Turns the `Dimension` by 90 degrees: width and height swap.
    pub fn flip(&mut self)
        ensures
            *final(self) == old(self).spec_flipped(),
            final(self).spec_id() == old(self).spec_id(),
            final(self).spec_width() == old(self).spec_height(),
            final(self).spec_height() == old(self).spec_width(),
            final(self).spec_padding() == old(self).spec_padding(),
    {
        proof {
            use_type_invariant(&*self);
        }
        let w = self.width;
        self.width = self.height;
        self.height = w;
    }

    /// Returns a copy turned by 90 degrees.
    pub fn to_flipped(&self) -> (r: Self)
        ensures
            r == self.spec_flipped(),
            r.spec_id() == self.spec_id(),
            r.spec_width() == self.spec_height(),
            r.spec_height() == self.spec_width(),
            r.spec_padding() == self.spec_padding(),
    {
        proof {
            use_type_invariant(self);
        }
        Dimension { id: self.id, width: self.height, height: self.width, padding: self.padding }
    }

    /// `true` if width or height is 0; padding is not counted.
    pub fn is_empty(&self) -> (r: bool)
        ensures
            r == (self.spec_width() == 0 || self.spec_height() == 0),
    {
        self.width == 0 || self.height == 0
    }

    /// `true` if width or height is 0 with the padding counted.
    pub fn is_empty_total(&self) -> (r: bool)
        ensures
            r == (self.spec_width_total() == 0 || self.spec_height_total() == 0),
    {
        proof {
            use_type_invariant(self);
        }
        self.width_total() == 0 || self.height_total() == 0
    }

    /// Width times height, padding not counted.
    pub fn area(&self) -> (r: i64)
        ensures
            r == self.spec_width() * self.spec_height(),
            r >= 0,
    {
        proof {
            use_type_invariant(self);
            lemma_product_bound(self.width as int, self.height as int);
        }
        self.width as i64 * self.height as i64
    }

    /// Width times height, padding counted.
    pub fn area_total(&self) -> (r: i128)
        ensures
            r == self.spec_width_total() * self.spec_height_total(),
            r >= 0,
    {
        let w = self.width_total() as i128;
        let h = self.height_total() as i128;
        proof {
            use_type_invariant(self);
            assert(0 <= w * h <= 0x1_8000_0000 * 0x1_8000_0000) by (nonlinear_arith)
                requires
                    0 <= w <= 0x1_8000_0000,
                    0 <= h <= 0x1_8000_0000,
            ;
        }
        w * h
    }
}

/// The product of two values under `2^31` fits an `i64`.
proof fn lemma_product_bound(a: int, b: int)
    requires
        0 <= a <= 0x8000_0000,
        0 <= b <= 0x8000_0000,
    ensures
        0 <= a * b <= i64::MAX,
{
    assert(0 <= a * b <= 0x8000_0000 * 0x8000_0000) by (nonlinear_arith)
        requires
            0 <= a <= 0x8000_0000,
            0 <= b <= 0x8000_0000,
    ;
}

impl Default for Dimension {
    /// An empty `Dimension` with a fresh identifier.
    fn default() -> (r: Self)
        ensures
            r.spec_id() >= 1,
            r.spec_width() == 0,
            r.spec_height() == 0,
            r.spec_padding() == 0,
    {
        Dimension::new(0, 0)
    }
}

} // verus!
