//! One interface over both packing algorithms, chosen by a tag, and the packing of a list of
//! objects into as many bins of one size as it takes.
use vstd::prelude::*;

use crate::dimension::Dimension;
use crate::guillotine::{self, GuillotineBin, RectHeuristic, SplitHeuristic};
use crate::maxrects::{self, Heuristic, MaxRectsBin};
use crate::rectangle::Rectangle;
use crate::region::{clamp_len, clip_all, grid_rows, len0, content_area, first_with_id, grown_len, initial_free, shrunk_size, Region};

verus! {

/// The packing algorithm of a bin.
#[derive(Clone, Copy, Debug, PartialEq, Eq, Structural, Hash)]
pub enum BinType {
    MaxRects,
    Guillotine,
}

/// Why a list of objects cannot be packed into bins of a given size.
#[derive(Clone, Copy, Debug, PartialEq, Eq, Structural, Hash)]
pub enum BinError {
    /// An object with its padding is wider or higher than a bin.
    ItemTooBig,
    /// An object with its padding has no width or no height.
    ItemTooSmall,
}

impl BinError {
    /// A short description of the error.
    pub fn message(&self) -> (r: &'static str) {
        match self {
            BinError::ItemTooBig => "item is too big for the bin",
            BinError::ItemTooSmall => "item is empty",
        }
    }
}

/// What rules out object `d` for a `w` by `h` bin, if anything: being empty with its padding
/// on some axis, else exceeding the bin on some axis.
pub open spec fn item_error(d: Dimension, w: int, h: int) -> Option<BinError> {
    if d.spec_width_total() == 0 || d.spec_height_total() == 0 {
        Some(BinError::ItemTooSmall)
    } else if d.spec_width_total() > w || d.spec_height_total() > h {
        Some(BinError::ItemTooBig)
    } else {
        None
    }
}

/// What rules out the first object of `nodes` that is ruled out for a `w` by `h` bin.
pub open spec fn first_error(nodes: Seq<Dimension>, w: int, h: int) -> Option<BinError>
    decreases nodes.len(),
{
    if nodes.len() == 0 {
        None
    } else {
        match first_error(nodes.drop_last(), w, h) {
            Some(e) => Some(e),
            None => item_error(nodes.last(), w, h),
        }
    }
}

/// Where no object is ruled out, each fits an empty bin.
pub proof fn lemma_no_error(nodes: Seq<Dimension>, w: int, h: int)
    requires
        first_error(nodes, w, h) is None,
    ensures
        forall|i: int| 0 <= i < nodes.len() ==> item_error(#[trigger] nodes[i], w, h) is None,
    decreases nodes.len(),
{
    if nodes.len() > 0 {
        lemma_no_error(nodes.drop_last(), w, h);
        assert forall|i: int| 0 <= i < nodes.len() implies item_error(#[trigger] nodes[i], w, h)
            is None by {
            if i < nodes.len() - 1 {
                assert(nodes[i] == nodes.drop_last()[i]);
            }
        }
    }
}

/// Computes `first_error`.
pub fn check_items(nodes: &[Dimension], w: i32, h: i32) -> (r: Option<BinError>)
    ensures
        r == first_error(nodes@, w as int, h as int),
{
    let mut i: usize = 0;
    while i < nodes.len()
        invariant
            i <= nodes@.len(),
            first_error(nodes@.subrange(0, i as int), w as int, h as int) is None,
        decreases nodes@.len() - i,
    {
        let d = &nodes[i];
        let wt = d.width_total();
        let ht = d.height_total();
        proof {
            assert(nodes@.subrange(0, i + 1).drop_last() =~= nodes@.subrange(0, i as int));
            assert(nodes@.subrange(0, i + 1).last() == nodes@[i as int]);
            lemma_first_error_prefix(nodes@, i as int + 1, w as int, h as int);
        }
        if wt == 0 || ht == 0 {
            return Some(BinError::ItemTooSmall);
        }
        if wt > w as i64 || ht > h as i64 {
            return Some(BinError::ItemTooBig);
        }
        i = i + 1;
    }
    proof {
        assert(nodes@.subrange(0, i as int) =~= nodes@);
    }
    None
}

/// Once an object of a prefix is ruled out, the first error of the whole list is known.
proof fn lemma_first_error_prefix(nodes: Seq<Dimension>, n: int, w: int, h: int)
    requires
        0 <= n <= nodes.len(),
    ensures
        first_error(nodes.subrange(0, n), w, h) is Some ==> first_error(nodes, w, h)
            == first_error(nodes.subrange(0, n), w, h),
    decreases nodes.len() - n,
{
    if n < nodes.len() {
        lemma_first_error_prefix(nodes, n + 1, w, h);
        assert(nodes.subrange(0, n + 1).drop_last() =~= nodes.subrange(0, n));
    } else {
        assert(nodes.subrange(0, n) =~= nodes);
    }
}

/// A bin of either algorithm, packed with the default heuristics: turning allowed,
/// `BestAreaFit` and `MinimizeArea` for Guillotine; `BestShortSideFit` for MaxRects.
pub enum Bin {
    MaxRects(MaxRectsBin),
    Guillotine(GuillotineBin),
}

/// The rule that a `Bin` of type MaxRects places with.
pub open spec fn default_rule() -> Heuristic {
    Heuristic::BestShortSideFit
}

/// The choice that a `Bin` of type Guillotine places with.
pub open spec fn default_choice() -> RectHeuristic {
    RectHeuristic::BestAreaFit
}

/// The split that a `Bin` of type Guillotine places with.
pub open spec fn default_method() -> SplitHeuristic {
    SplitHeuristic::MinimizeArea
}

/// What every bin offers, whatever its algorithm; placement uses the default heuristics.
pub trait BinPacker {
    /// The bin's invariant.
    spec fn valid(&self) -> bool;

    spec fn size(&self) -> (int, int);

    /// The placed rectangles, in the order of insertion.
    spec fn placed(&self) -> Seq<Rectangle>;

    /// The free regions, in order.
    spec fn free(&self) -> Seq<Region>;

    /// Free regions, placed rectangles and result after inserting `d`.
    spec fn insert_result(&self, d: Dimension) -> (Seq<Region>, Seq<Rectangle>, Option<Rectangle>);

    /// Free regions, placed rectangles, inserted rectangles and rejected objects after
    /// inserting each of `dims` in turn.
    spec fn insert_list_result(&self, dims: Seq<Dimension>) -> (
        Seq<Region>,
        Seq<Rectangle>,
        Seq<Rectangle>,
        Seq<Dimension>,
    );

    /// The free regions that growing to `nw` by `nh` adds.
    spec fn grow_added(&self, nw: int, nh: int) -> Seq<Region>;

    /// The free regions after shrinking to `nw` by `nh`.
    spec fn shrink_free(&self, nw: int, nh: int) -> Seq<Region>;

    fn width(&self) -> (r: i32)
        ensures
            r == self.size().0,
    ;

    fn height(&self) -> (r: i32)
        ensures
            r == self.size().1,
    ;

    /// The number of placed rectangles.
    fn len(&self) -> (r: usize)
        ensures
            r == self.placed().len(),
    ;

    /// The placed rectangles, in the order of insertion.
    fn as_slice(&self) -> (r: &[Rectangle])
        ensures
            r@ == self.placed(),
    ;

    /// The area that placed rectangles cover, padding not counted.
    fn used_area(&self) -> (r: i128)
        ensures
            r == content_area(self.placed()),
    ;

    /// The first placed rectangle with identifier `id`.
    fn find_by_id(&self, id: isize) -> (r: Option<&Rectangle>)
        ensures
            match r {
                Some(rect) => exists|i: int|
                    #[trigger] first_with_id(self.placed(), id, i) && *rect == self.placed()[i],
                None => forall|i: int|
                    0 <= i < self.placed().len() ==> (#[trigger] self.placed()[i]).spec_id() != id,
            },
    ;

    /// Places `dim`, or returns `None` and places nothing.
    fn insert(&mut self, dim: &Dimension) -> (r: Option<Rectangle>)
        requires
            old(self).valid(),
        ensures
            final(self).valid(),
            final(self).size() == old(self).size(),
            match r {
                Some(rect) => final(self).placed() == old(self).placed().push(rect),
                None => final(self).placed() == old(self).placed(),
            },
            (final(self).free(), final(self).placed(), r) == old(self).insert_result(*dim),
    ;

    /// Inserts each of `dims` in turn; returns the rectangles placed and the objects that did
    /// not fit, each in order.
    fn insert_list(&mut self, dims: &[Dimension]) -> (r: (Vec<Rectangle>, Vec<Dimension>))
        requires
            old(self).valid(),
        ensures
            final(self).valid(),
            final(self).size() == old(self).size(),
            r.0@.len() + r.1@.len() == dims@.len(),
            final(self).placed() == old(self).placed() + r.0@,
            (final(self).free(), final(self).placed(), r.0@, r.1@) == old(self).insert_list_result(
                dims@,
            ),
    ;

    /// Grows the bin; placed rectangles stay where they are.
    fn grow(&mut self, dw: i32, dh: i32)
        requires
            old(self).valid(),
        ensures
            final(self).valid(),
            final(self).size() == (
                grown_len(old(self).size().0, dw as int),
                grown_len(old(self).size().1, dh as int),
            ),
            final(self).placed() == old(self).placed(),
            final(self).free() == old(self).free() + old(self).grow_added(
                final(self).size().0,
                final(self).size().1,
            ),
    ;

    /// Shrinks the bin around what is placed; placed rectangles stay where they are.
    fn shrink(&mut self, power_of_two: bool)
        requires
            old(self).valid(),
        ensures
            final(self).valid(),
            final(self).size() == shrunk_size(
                old(self).size().0,
                old(self).size().1,
                old(self).placed(),
                power_of_two,
            ),
            final(self).placed() == old(self).placed(),
            final(self).free() == old(self).shrink_free(final(self).size().0, final(self).size().1),
    ;
}

/// Creates an empty bin of the given type; negative sizes become 0.
pub fn bin_new(bin_type: BinType, width: i32, height: i32) -> (r: Bin)
    ensures
        r.wf(),
        r.bin_type() == bin_type,
        r.spec_width() == if width < 0 {
            0
        } else {
            width
        },
        r.spec_height() == if height < 0 {
            0
        } else {
            height
        },
        r.placed_rects() == Seq::<Rectangle>::empty(),
        fresh(r, bin_type, r.spec_width() as int, r.spec_height() as int),
{
    bin_with_capacity(bin_type, width, height, 0)
}

/// Creates an empty bin of the given type with room reserved for `capacity` rectangles;
/// negative sizes become 0.
pub fn bin_with_capacity(bin_type: BinType, width: i32, height: i32, capacity: usize) -> (r: Bin)
    ensures
        r.wf(),
        r.bin_type() == bin_type,
        r.spec_width() == if width < 0 {
            0
        } else {
            width
        },
        r.spec_height() == if height < 0 {
            0
        } else {
            height
        },
        r.placed_rects() == Seq::<Rectangle>::empty(),
        fresh(r, bin_type, r.spec_width() as int, r.spec_height() as int),
{
    match bin_type {
        BinType::MaxRects => Bin::MaxRects(MaxRectsBin::with_capacity(width, height, capacity)),
        BinType::Guillotine => Bin::Guillotine(
            GuillotineBin::with_capacity(width, height, capacity),
        ),
    }
}

impl Bin {
    pub open spec fn bin_type(&self) -> BinType {
        match self {
            Bin::MaxRects(_) => BinType::MaxRects,
            Bin::Guillotine(_) => BinType::Guillotine,
        }
    }

    pub open spec fn wf(&self) -> bool {
        match self {
            Bin::MaxRects(b) => b.wf(),
            Bin::Guillotine(b) => b.wf(),
        }
    }

    pub open spec fn spec_width(&self) -> i32 {
        match self {
            Bin::MaxRects(b) => b.spec_width(),
            Bin::Guillotine(b) => b.spec_width(),
        }
    }

    pub open spec fn spec_height(&self) -> i32 {
        match self {
            Bin::MaxRects(b) => b.spec_height(),
            Bin::Guillotine(b) => b.spec_height(),
        }
    }

    /// The placed rectangles, in the order of insertion.
    pub open spec fn placed_rects(&self) -> Seq<Rectangle> {
        match self {
            Bin::MaxRects(b) => b.placed_rects(),
            Bin::Guillotine(b) => b.placed_rects(),
        }
    }

    /// The state and result after inserting `d` with the default heuristics.
    pub open spec fn inserted(&self, after: &Bin, d: Dimension, r: Option<Rectangle>) -> bool {
        match (self, after) {
            (Bin::MaxRects(a), Bin::MaxRects(b)) => (b.free_regions(), b.placed_rects(), r)
                == maxrects::insert_outcome(
                a.free_regions(),
                a.placed_rects(),
                d,
                default_rule(),
                a.spec_width() as int,
                a.spec_height() as int,
            ),
            (Bin::Guillotine(a), Bin::Guillotine(b)) => (b.free_regions(), b.placed_rects(), r)
                == guillotine::insert_outcome(
                a.free_regions(),
                a.placed_rects(),
                d,
                true,
                default_choice(),
                default_method(),
            ),
            _ => false,
        }
    }

    pub fn width(&self) -> (r: i32)
        ensures
            r == self.spec_width(),
    {
        match self {
            Bin::MaxRects(b) => b.width(),
            Bin::Guillotine(b) => b.width(),
        }
    }

    pub fn height(&self) -> (r: i32)
        ensures
            r == self.spec_height(),
    {
        match self {
            Bin::MaxRects(b) => b.height(),
            Bin::Guillotine(b) => b.height(),
        }
    }

    /// The number of placed rectangles.
    pub fn len(&self) -> (r: usize)
        ensures
            r == self.placed_rects().len(),
    {
        match self {
            Bin::MaxRects(b) => b.len(),
            Bin::Guillotine(b) => b.len(),
        }
    }

    pub fn is_empty(&self) -> (r: bool)
        ensures
            r == (self.placed_rects().len() == 0),
    {
        match self {
            Bin::MaxRects(b) => b.is_empty(),
            Bin::Guillotine(b) => b.is_empty(),
        }
    }

    /// The placed rectangles, in the order of insertion.
    pub fn as_slice(&self) -> (r: &[Rectangle])
        ensures
            r@ == self.placed_rects(),
    {
        match self {
            Bin::MaxRects(b) => b.as_slice(),
            Bin::Guillotine(b) => b.as_slice(),
        }
    }

    /// The placed rectangles, in the order of insertion.
    pub fn iter(&self) -> (r: std::slice::Iter<'_, Rectangle>)
        ensures
            vstd::std_specs::slice::into_iter_elts(r) == self.placed_rects(),
    {
        let s = self.as_slice();
        proof {
            vstd::std_specs::slice::axiom_spec_slice_iter(s);
        }
        s.iter()
    }

    /// Draws the placed rectangles on a character grid of the bin's size, as `draw_grid` does.
    pub fn visualize(&self) -> (r: String)
        ensures
            r@ == grid_rows(self.placed_rects(), len0(self.spec_width()), len0(self.spec_height())),
    {
        match self {
            Bin::MaxRects(b) => b.visualize(),
            Bin::Guillotine(b) => b.visualize(),
        }
    }

    /// The area that placed rectangles cover, padding not counted.
    pub fn used_area(&self) -> (r: i128)
        ensures
            r == content_area(self.placed_rects()),
    {
        match self {
            Bin::MaxRects(b) => b.used_area(),
            Bin::Guillotine(b) => b.used_area(),
        }
    }

    /// The first placed rectangle with identifier `id`.
    pub fn find_by_id(&self, id: isize) -> (r: Option<&Rectangle>)
        ensures
            match r {
                Some(rect) => exists|i: int|
                    #[trigger] first_with_id(self.placed_rects(), id, i) && *rect
                        == self.placed_rects()[i],
                None => forall|i: int|
                    0 <= i < self.placed_rects().len() ==> (
                    #[trigger] self.placed_rects()[i]).spec_id() != id,
            },
    {
        let r = match self {
            Bin::MaxRects(b) => b.find_by_id(id),
            Bin::Guillotine(b) => b.find_by_id(id),
        };
        proof {
            if let Some(rect) = r {
                let i = choose|i: int|
                    #[trigger] first_with_id(self.placed_rects(), id, i) && *rect
                        == self.placed_rects()[i];
            }
        }
        r
    }

    /// Inserts `dim` with the default heuristics of the bin's type.
    pub fn insert(&mut self, dim: &Dimension) -> (r: Option<Rectangle>)
        requires
            old(self).wf(),
        ensures
            final(self).wf(),
            final(self).bin_type() == old(self).bin_type(),
            final(self).spec_width() == old(self).spec_width(),
            final(self).spec_height() == old(self).spec_height(),
            old(self).inserted(final(self), *dim, r),
    {
        match self {
            Bin::MaxRects(b) => b.insert(dim, Heuristic::BestShortSideFit),
            Bin::Guillotine(b) => b.insert(
                dim,
                true,
                RectHeuristic::BestAreaFit,
                SplitHeuristic::MinimizeArea,
            ),
        }
    }

    /// Inserts each of `dims` in turn with the default heuristics of the bin's type; returns
    /// the rectangles placed and the objects that did not fit, each in order.
    pub fn insert_list(&mut self, dims: &[Dimension]) -> (r: (Vec<Rectangle>, Vec<Dimension>))
        requires
            old(self).wf(),
        ensures
            final(self).wf(),
            final(self).bin_type() == old(self).bin_type(),
            final(self).spec_width() == old(self).spec_width(),
            final(self).spec_height() == old(self).spec_height(),
            r.0@.len() + r.1@.len() == dims@.len(),
            match (*old(self), *final(self)) {
                (Bin::MaxRects(a), Bin::MaxRects(b)) => (
                    b.free_regions(),
                    b.placed_rects(),
                    r.0@,
                    r.1@,
                ) == maxrects::insert_list_outcome(
                    a.free_regions(),
                    a.placed_rects(),
                    dims@,
                    default_rule(),
                    a.spec_width() as int,
                    a.spec_height() as int,
                ),
                (Bin::Guillotine(a), Bin::Guillotine(b)) => (
                    b.free_regions(),
                    b.placed_rects(),
                    r.0@,
                    r.1@,
                ) == guillotine::insert_list_outcome(
                    a.free_regions(),
                    a.placed_rects(),
                    dims@,
                    true,
                    default_choice(),
                    default_method(),
                ),
                _ => false,
            },
    {
        match self {
            Bin::MaxRects(b) => b.insert_list(dims, Heuristic::BestShortSideFit),
            Bin::Guillotine(b) => b.insert_list(
                dims,
                true,
                RectHeuristic::BestAreaFit,
                SplitHeuristic::MinimizeArea,
            ),
        }
    }

    /// Grows the bin as the engine's `grow` does; placed rectangles stay where they are.
    pub fn grow(&mut self, dw: i32, dh: i32)
        requires
            old(self).wf(),
        ensures
            final(self).wf(),
            final(self).bin_type() == old(self).bin_type(),
            final(self).spec_width() == grown_len(
                old(self).spec_width() as int,
                dw as int,
            ),
            final(self).spec_height() == grown_len(
                old(self).spec_height() as int,
                dh as int,
            ),
            final(self).placed_rects() == old(self).placed_rects(),
            match (*old(self), *final(self)) {
                (Bin::MaxRects(a), Bin::MaxRects(b)) => b.free_regions() == a.free_regions()
                    + maxrects::grow_regions(
                    a.spec_width() as int,
                    a.spec_height() as int,
                    b.spec_width() as int,
                    b.spec_height() as int,
                ),
                (Bin::Guillotine(a), Bin::Guillotine(b)) => b.free_regions() == a.free_regions()
                    + guillotine::grow_regions(
                    a.spec_width() as int,
                    a.spec_height() as int,
                    b.spec_width() as int,
                    b.spec_height() as int,
                ),
                _ => false,
            },
    {
        match self {
            Bin::MaxRects(b) => b.grow(dw, dh),
            Bin::Guillotine(b) => b.grow(dw, dh),
        }
    }

    /// Shrinks the bin as the engine's `shrink` does; placed rectangles stay where they are.
    pub fn shrink(&mut self, power_of_two: bool)
        requires
            old(self).wf(),
        ensures
            final(self).wf(),
            final(self).bin_type() == old(self).bin_type(),
            (final(self).spec_width() as int, final(self).spec_height() as int)
                == shrunk_size(
                old(self).spec_width() as int,
                old(self).spec_height() as int,
                old(self).placed_rects(),
                power_of_two,
            ),
            final(self).placed_rects() == old(self).placed_rects(),
            match (*old(self), *final(self)) {
                (Bin::MaxRects(a), Bin::MaxRects(b)) => b.free_regions() == maxrects::pruned(
                    clip_all(a.free_regions(), b.spec_width() as int, b.spec_height() as int),
                ),
                (Bin::Guillotine(a), Bin::Guillotine(b)) => b.free_regions() == clip_all(
                    a.free_regions(),
                    b.spec_width() as int,
                    b.spec_height() as int,
                ),
                _ => false,
            },
    {
        match self {
            Bin::MaxRects(b) => b.shrink(power_of_two),
            Bin::Guillotine(b) => b.shrink(power_of_two),
        }
    }
}

/// Whatever sequence of operations produced a bin, no two of its placed rectangles
/// intersect, and each lies with its padding within the bin.
pub proof fn lemma_bin_placed(bin: &Bin)
    requires
        bin.wf(),
    ensures
        forall|i: int, j: int|
            #![trigger bin.placed_rects()[i], bin.placed_rects()[j]]
            0 <= i < bin.placed_rects().len() && 0 <= j < bin.placed_rects().len() && i != j
                ==> !bin.placed_rects()[i].spec_intersects(&bin.placed_rects()[j]),
        forall|i: int|
            #![trigger bin.placed_rects()[i]]
            0 <= i < bin.placed_rects().len() ==> {
                let r = bin.placed_rects()[i];
                &&& 0 <= r.left_total()
                &&& 0 <= r.top_total()
                &&& r.right_total() <= bin.spec_width()
                &&& r.bottom_total() <= bin.spec_height()
            },
{
    match bin {
        Bin::MaxRects(b) => {
            maxrects::lemma_placed_disjoint(b);
            maxrects::lemma_placed_within(b);
        },
        Bin::Guillotine(b) => {
            guillotine::lemma_placed_disjoint(b);
            guillotine::lemma_placed_within(b);
        },
    }
}

/// Free regions and placed rectangles of a bin.
pub type BinState = (Seq<Region>, Seq<Rectangle>);

/// Free regions and placed rectangles of `b`.
pub open spec fn state_of(b: Bin) -> BinState {
    match b {
        Bin::MaxRects(m) => (m.free_regions(), m.placed_rects()),
        Bin::Guillotine(g) => (g.free_regions(), g.placed_rects()),
    }
}

/// Free regions, placed rectangles and result after inserting `d` into a `w` by `h` bin of
/// type `t` with the default heuristics.
pub open spec fn step(t: BinType, s: BinState, d: Dimension, w: int, h: int) -> (
    Seq<Region>,
    Seq<Rectangle>,
    Option<Rectangle>,
) {
    match t {
        BinType::MaxRects => maxrects::insert_outcome(s.0, s.1, d, default_rule(), w, h),
        BinType::Guillotine => guillotine::insert_outcome(
            s.0,
            s.1,
            d,
            true,
            default_choice(),
            default_method(),
        ),
    }
}

/// The state of a single `w` by `h` bin of type `t` after inserting each of `nodes` in turn.
pub open spec fn fill_one(t: BinType, nodes: Seq<Dimension>, w: int, h: int) -> BinState
    decreases nodes.len(),
{
    if nodes.len() == 0 {
        (initial_free(w, h), Seq::empty())
    } else {
        let o = step(t, fill_one(t, nodes.drop_last(), w, h), nodes.last(), w, h);
        (o.0, o.1)
    }
}

/// The bins of type `t`, as free regions and placed rectangles, that inserting each of
/// `nodes` in turn into the last bin gives, where each object that the last bin rejects
/// opens a new bin of `w` by `h`: the closed bins, in order, and the last one.
pub open spec fn next_fit(t: BinType, nodes: Seq<Dimension>, w: int, h: int) -> (
    Seq<BinState>,
    BinState,
)
    decreases nodes.len(),
{
    if nodes.len() == 0 {
        (Seq::empty(), (initial_free(w, h), Seq::empty()))
    } else {
        let prev = next_fit(t, nodes.drop_last(), w, h);
        let d = nodes.last();
        let o = step(t, prev.1, d, w, h);
        if o.2 is Some {
            (prev.0, (o.0, o.1))
        } else {
            let n = step(t, (initial_free(w, h), Seq::empty()), d, w, h);
            (prev.0.push(prev.1), (n.0, n.1))
        }
    }
}

/// All rectangles placed in `bins`, bin by bin.
pub open spec fn all_placed(bins: Seq<Bin>) -> Seq<Rectangle>
    decreases bins.len(),
{
    if bins.len() == 0 {
        Seq::empty()
    } else {
        all_placed(bins.drop_last()) + bins.last().placed_rects()
    }
}

/// The fields of an empty bin of type `t`.
pub open spec fn fresh(b: Bin, t: BinType, w: int, h: int) -> bool {
    &&& b.bin_type() == t
    &&& b.spec_width() == w
    &&& b.spec_height() == h
    &&& match b {
        Bin::MaxRects(m) => m.placed_rects() == Seq::<Rectangle>::empty() && m.free_regions()
            == initial_free(w, h),
        Bin::Guillotine(g) => g.placed_rects() == Seq::<Rectangle>::empty() && g.free_regions()
            == initial_free(w, h),
    }
}

/// Creates an empty bin as `fresh` says.
fn fresh_bin(bin_type: BinType, w: i32, h: i32) -> (r: Bin)
    requires
        w >= 0,
        h >= 0,
    ensures
        r.wf(),
        fresh(r, bin_type, w as int, h as int),
{
    match bin_type {
        BinType::MaxRects => Bin::MaxRects(MaxRectsBin::new(w, h)),
        BinType::Guillotine => Bin::Guillotine(GuillotineBin::new(w, h)),
    }
}

/// What inserting into a `Bin` places: the object, turned only in a Guillotine bin; and an
/// object that fits a fresh bin is placed there.
proof fn lemma_bin_insert(a: Bin, b: Bin, d: Dimension, r: Option<Rectangle>, w: int, h: int)
    requires
        a.inserted(&b, d, r),
    ensures
        match r {
            Some(rect) => b.placed_rects() == a.placed_rects().push(rect) && (rect.spec_dim() == d
                || (a.bin_type() == BinType::Guillotine && rect.spec_dim() == d.spec_flipped())),
            None => b.placed_rects() == a.placed_rects(),
        },
        fresh(a, a.bin_type(), w, h) && a.spec_width() == w && a.spec_height() == h && 0
            < d.spec_width_total() <= w <= i32::MAX && 0 < d.spec_height_total() <= h <= i32::MAX
            ==> r is Some,
{
    match (a, b) {
        (Bin::MaxRects(x), Bin::MaxRects(_)) => {
            maxrects::lemma_insert_places(
                x.free_regions(),
                x.placed_rects(),
                d,
                default_rule(),
                x.spec_width() as int,
                x.spec_height() as int,
            );
        },
        (Bin::Guillotine(x), Bin::Guillotine(_)) => {
            guillotine::lemma_insert_places(
                x.free_regions(),
                x.placed_rects(),
                d,
                true,
                default_choice(),
                default_method(),
            );
            if fresh(a, a.bin_type(), w, h) && 0 < d.spec_width_total() <= w <= i32::MAX && 0
                < d.spec_height_total() <= h <= i32::MAX {
                assert(guillotine::insert_outcome(
                    initial_free(w, h),
                    x.placed_rects(),
                    d,
                    true,
                    default_choice(),
                    default_method(),
                ).2 is Some);
            }
        },
        _ => {},
    }
}

/// Packs `nodes` into bins of type `bin_type` and size `bin_width` by `bin_height` (negative
/// sizes become 0), with the default heuristics of the type.
///
/// Fails, before anything is placed, with the error of the first object that is empty with
/// its padding (`ItemTooSmall`) or larger than a bin (`ItemTooBig`). Otherwise the objects
/// are inserted in order into the last bin; where `allow_new_bins`, an object that the last
/// bin rejects opens a new bin, so that every object is placed; else a single bin is filled.
pub fn pack_bins(
    bin_type: BinType,
    nodes: &[Dimension],
    bin_width: i32,
    bin_height: i32,
    allow_new_bins: bool,
) -> (r: Result<Vec<Bin>, BinError>)
    ensures
        ({
            let w = if bin_width < 0 {
                0
            } else {
                bin_width as int
            };
            let h = if bin_height < 0 {
                0
            } else {
                bin_height as int
            };
            match r {
                Err(e) => first_error(nodes@, w, h) == Some(e),
                Ok(bins) => {
                    &&& first_error(nodes@, w, h) is None
                    &&& bins@.len() >= 1
                    &&& forall|k: int|
                        #![trigger bins@[k]]
                        0 <= k < bins@.len() ==> bins@[k].wf() && bins@[k].bin_type() == bin_type
                            && bins@[k].spec_width() == w && bins@[k].spec_height() == h
                    &&& !allow_new_bins ==> bins@.len() == 1 && state_of(bins@[0]) == fill_one(
                        bin_type,
                        nodes@,
                        w,
                        h,
                    )
                    &&& allow_new_bins ==> {
                        let nf = next_fit(bin_type, nodes@, w, h);
                        &&& bins@.len() == nf.0.len() + 1
                        &&& forall|k: int|
                            #![trigger bins@[k]]
                            0 <= k < nf.0.len() ==> state_of(bins@[k]) == nf.0[k]
                        &&& state_of(bins@.last()) == nf.1
                        &&& all_placed(bins@).len() == nodes@.len()
                        &&& forall|k: int|
                            #![trigger all_placed(bins@)[k]]
                            0 <= k < nodes@.len() ==> all_placed(bins@)[k].spec_dim() == nodes@[k]
                                || (bin_type == BinType::Guillotine && all_placed(bins@)[k].spec_dim()
                                == nodes@[k].spec_flipped())
                    }
                },
            }
        }),
{
    let w = clamp_len(bin_width);
    let h = clamp_len(bin_height);
    if let Some(e) = check_items(nodes, w, h) {
        return Err(e);
    }
    let mut cur = fresh_bin(bin_type, w, h);
    if !allow_new_bins {
        let mut i: usize = 0;
        while i < nodes.len()
            invariant
                i <= nodes@.len(),
                cur.wf(),
                cur.bin_type() == bin_type,
                cur.spec_width() == w,
                cur.spec_height() == h,
                state_of(cur) == fill_one(bin_type, nodes@.subrange(0, i as int), w as int, h as int),
            decreases nodes@.len() - i,
        {
            proof {
                assert(nodes@.subrange(0, i + 1).drop_last() =~= nodes@.subrange(0, i as int));
                assert(nodes@.subrange(0, i + 1).last() == nodes@[i as int]);
            }
            cur.insert(&nodes[i]);
            i = i + 1;
        }
        proof {
            assert(nodes@.subrange(0, i as int) =~= nodes@);
        }
        let mut bins: Vec<Bin> = Vec::new();
        bins.push(cur);
        return Ok(bins);
    }
    proof {
        lemma_no_error(nodes@, w as int, h as int);
    }
    let mut done: Vec<Bin> = Vec::new();
    let mut i: usize = 0;
    while i < nodes.len()
        invariant
            i <= nodes@.len(),
            w >= 0,
            h >= 0,
            forall|k: int|
                0 <= k < nodes@.len() ==> item_error(#[trigger] nodes@[k], w as int, h as int)
                    is None,
            cur.wf(),
            cur.bin_type() == bin_type,
            cur.spec_width() == w,
            cur.spec_height() == h,
            forall|k: int|
                #![trigger done@[k]]
                0 <= k < done@.len() ==> done@[k].wf() && done@[k].bin_type() == bin_type
                    && done@[k].spec_width() == w && done@[k].spec_height() == h,
            (all_placed(done@) + cur.placed_rects()).len() == i,
            ({
                let nf = next_fit(bin_type, nodes@.subrange(0, i as int), w as int, h as int);
                &&& done@.len() == nf.0.len()
                &&& forall|k: int| #![trigger done@[k]] 0 <= k < done@.len() ==> state_of(done@[k]) == nf.0[k]
                &&& state_of(cur) == nf.1
            }),
            forall|k: int|
                #![trigger (all_placed(done@) + cur.placed_rects())[k]]
                0 <= k < i ==> (all_placed(done@) + cur.placed_rects())[k].spec_dim() == nodes@[k]
                    || (bin_type == BinType::Guillotine && (all_placed(done@)
                    + cur.placed_rects())[k].spec_dim() == nodes@[k].spec_flipped()),
        decreases nodes@.len() - i,
    {
        let d = &nodes[i];
        // reading the sizes establishes that they are not negative
        let _wt = d.width_total();
        let _ht = d.height_total();
        let ghost before = all_placed(done@) + cur.placed_rects();
        let ghost old_cur = cur;
        let ghost old_done_all = done@;
        proof {
            assert(nodes@.subrange(0, i + 1).drop_last() =~= nodes@.subrange(0, i as int));
            assert(nodes@.subrange(0, i + 1).last() == nodes@[i as int]);
        }
        let placed = cur.insert(d);
        proof {
            lemma_bin_insert(old_cur, cur, *d, placed, w as int, h as int);
        }
        if placed.is_none() {
            let ghost old_done = done@;
            let fresh_one = fresh_bin(bin_type, w, h);
            done.push(cur);
            cur = fresh_one;
            let ghost empty_cur = cur;
            proof {
                assert(done@.drop_last() =~= old_done);
                assert(all_placed(done@) == all_placed(old_done) + old_cur.placed_rects());
                assert(item_error(nodes@[i as int], w as int, h as int) is None);
                assert forall|k: int|
                    #![trigger done@[k]]
                    0 <= k < done@.len() implies done@[k].wf() && done@[k].bin_type() == bin_type
                        && done@[k].spec_width() == w && done@[k].spec_height() == h by {
                    if k < old_done.len() {
                        assert(done@[k] == old_done[k]);
                    }
                }
            }
            let again = cur.insert(d);
            proof {
                lemma_bin_insert(empty_cur, cur, *d, again, w as int, h as int);
            }
        }
        proof {
            let nf0 = next_fit(bin_type, nodes@.subrange(0, i as int), w as int, h as int);
            let nf1 = next_fit(bin_type, nodes@.subrange(0, i + 1), w as int, h as int);
            if placed.is_none() {
                assert(done@.len() == old_done_all.len() + 1);
                assert(state_of(done@.last()) == nf0.1);
                assert forall|k: int| #![trigger done@[k]] 0 <= k < done@.len() implies state_of(done@[k]) == nf1.0[k] by {
                    if k < old_done_all.len() {
                        assert(done@[k] == old_done_all[k]);
                    }
                }
            }
            let after = all_placed(done@) + cur.placed_rects();
            assert(after.len() == i + 1);
            assert forall|k: int|
                #![trigger (all_placed(done@) + cur.placed_rects())[k]]
                0 <= k < i + 1 implies (all_placed(done@) + cur.placed_rects())[k].spec_dim()
                    == nodes@[k] || (bin_type == BinType::Guillotine && (all_placed(done@)
                    + cur.placed_rects())[k].spec_dim() == nodes@[k].spec_flipped()) by {
                if k < i {
                    assert(after[k] == before[k]);
                } else {
                    assert(after[k] == cur.placed_rects().last());
                }
            }
        }
        i = i + 1;
    }
    let ghost old_done = done@;
    done.push(cur);
    proof {
        assert(nodes@.subrange(0, i as int) =~= nodes@);
        assert(done@.drop_last() =~= old_done);
        assert forall|k: int|
            #![trigger done@[k]]
            0 <= k < done@.len() implies done@[k].wf() && done@[k].bin_type() == bin_type
                && done@[k].spec_width() == w && done@[k].spec_height() == h by {
            if k < old_done.len() {
                assert(done@[k] == old_done[k]);
            }
        }
    }
    Ok(done)
}

impl BinPacker for GuillotineBin {
    open spec fn valid(&self) -> bool {
        self.wf()
    }

    open spec fn free(&self) -> Seq<Region> {
        self.free_regions()
    }

    open spec fn insert_result(&self, d: Dimension) -> (Seq<Region>, Seq<Rectangle>, Option<Rectangle>) {
        guillotine::insert_outcome(self.free_regions(), self.placed_rects(), d, true, default_choice(), default_method())
    }

    open spec fn insert_list_result(&self, dims: Seq<Dimension>) -> (
        Seq<Region>,
        Seq<Rectangle>,
        Seq<Rectangle>,
        Seq<Dimension>,
    ) {
        guillotine::insert_list_outcome(self.free_regions(), self.placed_rects(), dims, true, default_choice(), default_method())
    }

    open spec fn grow_added(&self, nw: int, nh: int) -> Seq<Region> {
        guillotine::grow_regions(self.spec_width() as int, self.spec_height() as int, nw, nh)
    }

    open spec fn shrink_free(&self, nw: int, nh: int) -> Seq<Region> {
        clip_all(self.free_regions(), nw, nh)
    }

    open spec fn size(&self) -> (int, int) {
        (self.spec_width() as int, self.spec_height() as int)
    }

    open spec fn placed(&self) -> Seq<Rectangle> {
        self.placed_rects()
    }

    fn width(&self) -> (r: i32) {
        GuillotineBin::width(self)
    }

    fn height(&self) -> (r: i32) {
        GuillotineBin::height(self)
    }

    fn len(&self) -> (r: usize) {
        GuillotineBin::len(self)
    }

    fn as_slice(&self) -> (r: &[Rectangle]) {
        GuillotineBin::as_slice(self)
    }

    fn used_area(&self) -> (r: i128) {
        GuillotineBin::used_area(self)
    }

    fn find_by_id(&self, id: isize) -> (r: Option<&Rectangle>) {
        let r = GuillotineBin::find_by_id(self, id);
        proof {
            if let Some(rect) = r {
                let i = choose|i: int|
                    #[trigger] first_with_id(self.placed_rects(), id, i) && *rect
                        == self.placed_rects()[i];
                assert(first_with_id(self.placed(), id, i));
            }
        }
        r
    }

    fn insert(&mut self, dim: &Dimension) -> (r: Option<Rectangle>) {
        let r = GuillotineBin::insert(self, dim, true, RectHeuristic::BestAreaFit, SplitHeuristic::MinimizeArea);
        proof {
            guillotine::lemma_insert_places(old(self).free_regions(), old(self).placed_rects(), *dim, true, default_choice(), default_method());
        }
        r
    }

    fn insert_list(&mut self, dims: &[Dimension]) -> (r: (Vec<Rectangle>, Vec<Dimension>)) {
        let r = GuillotineBin::insert_list(self, dims, true, RectHeuristic::BestAreaFit, SplitHeuristic::MinimizeArea);
        proof {
            guillotine::lemma_insert_list_places(old(self).free_regions(), old(self).placed_rects(), dims@, true, default_choice(), default_method());
        }
        r
    }

    fn grow(&mut self, dw: i32, dh: i32) {
        GuillotineBin::grow(self, dw, dh)
    }

    fn shrink(&mut self, power_of_two: bool) {
        GuillotineBin::shrink(self, power_of_two)
    }
}

impl BinPacker for MaxRectsBin {
    open spec fn valid(&self) -> bool {
        self.wf()
    }

    open spec fn free(&self) -> Seq<Region> {
        self.free_regions()
    }

    open spec fn insert_result(&self, d: Dimension) -> (Seq<Region>, Seq<Rectangle>, Option<Rectangle>) {
        maxrects::insert_outcome(self.free_regions(), self.placed_rects(), d, default_rule(), self.spec_width() as int, self.spec_height() as int)
    }

    open spec fn insert_list_result(&self, dims: Seq<Dimension>) -> (
        Seq<Region>,
        Seq<Rectangle>,
        Seq<Rectangle>,
        Seq<Dimension>,
    ) {
        maxrects::insert_list_outcome(self.free_regions(), self.placed_rects(), dims, default_rule(), self.spec_width() as int, self.spec_height() as int)
    }

    open spec fn grow_added(&self, nw: int, nh: int) -> Seq<Region> {
        maxrects::grow_regions(self.spec_width() as int, self.spec_height() as int, nw, nh)
    }

    open spec fn shrink_free(&self, nw: int, nh: int) -> Seq<Region> {
        maxrects::pruned(clip_all(self.free_regions(), nw, nh))
    }

    open spec fn size(&self) -> (int, int) {
        (self.spec_width() as int, self.spec_height() as int)
    }

    open spec fn placed(&self) -> Seq<Rectangle> {
        self.placed_rects()
    }

    fn width(&self) -> (r: i32) {
        MaxRectsBin::width(self)
    }

    fn height(&self) -> (r: i32) {
        MaxRectsBin::height(self)
    }

    fn len(&self) -> (r: usize) {
        MaxRectsBin::len(self)
    }

    fn as_slice(&self) -> (r: &[Rectangle]) {
        MaxRectsBin::as_slice(self)
    }

    fn used_area(&self) -> (r: i128) {
        MaxRectsBin::used_area(self)
    }

    fn find_by_id(&self, id: isize) -> (r: Option<&Rectangle>) {
        let r = MaxRectsBin::find_by_id(self, id);
        proof {
            if let Some(rect) = r {
                let i = choose|i: int|
                    #[trigger] first_with_id(self.placed_rects(), id, i) && *rect
                        == self.placed_rects()[i];
                assert(first_with_id(self.placed(), id, i));
            }
        }
        r
    }

    fn insert(&mut self, dim: &Dimension) -> (r: Option<Rectangle>) {
        let r = MaxRectsBin::insert(self, dim, Heuristic::BestShortSideFit);
        proof {
            maxrects::lemma_insert_places(old(self).free_regions(), old(self).placed_rects(), *dim, default_rule(), old(self).spec_width() as int, old(self).spec_height() as int);
        }
        r
    }

    fn insert_list(&mut self, dims: &[Dimension]) -> (r: (Vec<Rectangle>, Vec<Dimension>)) {
        let r = MaxRectsBin::insert_list(self, dims, Heuristic::BestShortSideFit);
        proof {
            maxrects::lemma_insert_list_places(old(self).free_regions(), old(self).placed_rects(), dims@, default_rule(), old(self).spec_width() as int, old(self).spec_height() as int);
        }
        r
    }

    fn grow(&mut self, dw: i32, dh: i32) {
        MaxRectsBin::grow(self, dw, dh)
    }

    fn shrink(&mut self, power_of_two: bool) {
        MaxRectsBin::shrink(self, power_of_two)
    }
}

impl BinPacker for Bin {
    open spec fn valid(&self) -> bool {
        self.wf()
    }

    open spec fn free(&self) -> Seq<Region> {
        state_of(*self).0
    }

    open spec fn insert_result(&self, d: Dimension) -> (Seq<Region>, Seq<Rectangle>, Option<Rectangle>) {
        match self {
            Bin::MaxRects(b) => b.insert_result(d),
            Bin::Guillotine(b) => b.insert_result(d),
        }
    }

    open spec fn insert_list_result(&self, dims: Seq<Dimension>) -> (
        Seq<Region>,
        Seq<Rectangle>,
        Seq<Rectangle>,
        Seq<Dimension>,
    ) {
        match self {
            Bin::MaxRects(b) => b.insert_list_result(dims),
            Bin::Guillotine(b) => b.insert_list_result(dims),
        }
    }

    open spec fn grow_added(&self, nw: int, nh: int) -> Seq<Region> {
        match self {
            Bin::MaxRects(b) => b.grow_added(nw, nh),
            Bin::Guillotine(b) => b.grow_added(nw, nh),
        }
    }

    open spec fn shrink_free(&self, nw: int, nh: int) -> Seq<Region> {
        match self {
            Bin::MaxRects(b) => b.shrink_free(nw, nh),
            Bin::Guillotine(b) => b.shrink_free(nw, nh),
        }
    }

    open spec fn size(&self) -> (int, int) {
        (self.spec_width() as int, self.spec_height() as int)
    }

    open spec fn placed(&self) -> Seq<Rectangle> {
        self.placed_rects()
    }

    fn width(&self) -> (r: i32) {
        Bin::width(self)
    }

    fn height(&self) -> (r: i32) {
        Bin::height(self)
    }

    fn len(&self) -> (r: usize) {
        Bin::len(self)
    }

    fn as_slice(&self) -> (r: &[Rectangle]) {
        Bin::as_slice(self)
    }

    fn used_area(&self) -> (r: i128) {
        Bin::used_area(self)
    }

    fn find_by_id(&self, id: isize) -> (r: Option<&Rectangle>) {
        let r = Bin::find_by_id(self, id);
        proof {
            if let Some(rect) = r {
                let i = choose|i: int|
                    #[trigger] first_with_id(self.placed_rects(), id, i) && *rect
                        == self.placed_rects()[i];
                assert(first_with_id(self.placed(), id, i));
            }
        }
        r
    }

    fn insert(&mut self, dim: &Dimension) -> (r: Option<Rectangle>) {
        let ghost before = *self;
        let r = Bin::insert(self, dim);
        proof {
            lemma_bin_insert(before, *self, *dim, r, 0, 0);
        }
        r
    }

    fn insert_list(&mut self, dims: &[Dimension]) -> (r: (Vec<Rectangle>, Vec<Dimension>)) {
        let ghost before = *self;
        let r = Bin::insert_list(self, dims);
        proof {
            match before {
                Bin::MaxRects(a) => maxrects::lemma_insert_list_places(
                    a.free_regions(),
                    a.placed_rects(),
                    dims@,
                    default_rule(),
                    a.spec_width() as int,
                    a.spec_height() as int,
                ),
                Bin::Guillotine(a) => guillotine::lemma_insert_list_places(
                    a.free_regions(),
                    a.placed_rects(),
                    dims@,
                    true,
                    default_choice(),
                    default_method(),
                ),
            }
        }
        r
    }

    fn grow(&mut self, dw: i32, dh: i32) {
        Bin::grow(self, dw, dh)
    }

    fn shrink(&mut self, power_of_two: bool) {
        Bin::shrink(self, power_of_two)
    }
}

} // verus!
