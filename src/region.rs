//! Free space of a bin and the geometric facts that both packing algorithms share.
use vstd::prelude::*;

use crate::rectangle::Rectangle;

verus! {

/// An axis-aligned area of free space in a bin, upper-left corner at `(x, y)`.
#[derive(Clone, Copy, Debug, PartialEq, Eq, Structural)]
pub struct Region {
    pub x: i32,
    pub y: i32,
    pub w: i32,
    pub h: i32,
}

/// Edges of an area: left, top, right and bottom, the last two exclusive.
pub type Frame = (int, int, int, int);

impl Region {
    pub open spec fn frame(self) -> Frame {
        (self.x as int, self.y as int, self.x + self.w, self.y + self.h)
    }

    /// An object of width `w` and height `h` fits into the region.
    pub open spec fn fits(self, w: int, h: int) -> bool {
        w <= self.w && h <= self.h
    }

    pub open spec fn nonempty(self) -> bool {
        self.w > 0 && self.h > 0
    }
}

/// The padded area of a placed rectangle.
pub open spec fn padded_frame(r: Rectangle) -> Frame {
    (r.left_total(), r.top_total(), r.right_total(), r.bottom_total())
}

/// The area of a bin of width `w` and height `h`.
pub open spec fn bin_frame(w: int, h: int) -> Frame {
    (0, 0, w, h)
}

/// The two areas share no point.
pub open spec fn apart(a: Frame, b: Frame) -> bool {
    a.2 <= b.0 || b.2 <= a.0 || a.3 <= b.1 || b.3 <= a.1
}

/// Area `a` lies within area `b`.
pub open spec fn within(a: Frame, b: Frame) -> bool {
    b.0 <= a.0 && b.1 <= a.1 && a.2 <= b.2 && a.3 <= b.3
}

/// Placed rectangles lie within the bin, are not empty with their padding, and do not
/// overlap with their padding.
pub open spec fn placed_ok(placed: Seq<Rectangle>, w: int, h: int) -> bool {
    &&& forall|i: int|
        #![trigger placed[i]]
        0 <= i < placed.len() ==> {
            &&& within(padded_frame(placed[i]), bin_frame(w, h))
            &&& placed[i].spec_dim().nonneg()
            &&& placed[i].spec_dim().spec_width_total() > 0
            &&& placed[i].spec_dim().spec_height_total() > 0
        }
    &&& forall|i: int, j: int|
        #![trigger placed[i], placed[j]]
        0 <= i < placed.len() && 0 <= j < placed.len() && i != j ==> apart(
            padded_frame(placed[i]),
            padded_frame(placed[j]),
        )
}

/// Free regions are not empty, lie within the bin and share no point with a placed
/// rectangle's padded area.
pub open spec fn free_ok(free: Seq<Region>, placed: Seq<Rectangle>, w: int, h: int) -> bool {
    &&& forall|i: int|
        #![trigger free[i]]
        0 <= i < free.len() ==> free[i].nonempty() && within(free[i].frame(), bin_frame(w, h))
    &&& forall|i: int, j: int|
        #![trigger free[i], placed[j]]
        0 <= i < free.len() && 0 <= j < placed.len() ==> apart(
            free[i].frame(),
            padded_frame(placed[j]),
        )
}

/// No two free regions share a point.
pub open spec fn free_disjoint(free: Seq<Region>) -> bool {
    forall|i: int, j: int|
        #![trigger free[i], free[j]]
        0 <= i < free.len() && 0 <= j < free.len() && i != j ==> apart(
            free[i].frame(),
            free[j].frame(),
        )
}

/// Placed rectangles that do not overlap with their padding do not intersect.
pub proof fn lemma_no_intersection(placed: Seq<Rectangle>, w: int, h: int)
    requires
        placed_ok(placed, w, h),
    ensures
        forall|i: int, j: int|
            #![trigger placed[i], placed[j]]
            0 <= i < placed.len() && 0 <= j < placed.len() && i != j ==> !placed[i].spec_intersects(
                &placed[j],
            ),
{
    assert forall|i: int, j: int|
        #![trigger placed[i], placed[j]]
        0 <= i < placed.len() && 0 <= j < placed.len() && i != j implies !placed[i].spec_intersects(
            &placed[j],
        ) by {
        assert(placed[i].spec_dim().nonneg());
        assert(placed[j].spec_dim().nonneg());
        assert(apart(padded_frame(placed[i]), padded_frame(placed[j])));
    }
}

/// The right edge of the rightmost padded area, or 0 without any.
pub open spec fn extent_x(placed: Seq<Rectangle>) -> int
    decreases placed.len(),
{
    if placed.len() == 0 {
        0
    } else {
        let e = extent_x(placed.drop_last());
        let r = placed.last().right_total();
        if r > e {
            r
        } else {
            e
        }
    }
}

/// The bottom edge of the lowest padded area, or 0 without any.
pub open spec fn extent_y(placed: Seq<Rectangle>) -> int
    decreases placed.len(),
{
    if placed.len() == 0 {
        0
    } else {
        let e = extent_y(placed.drop_last());
        let b = placed.last().bottom_total();
        if b > e {
            b
        } else {
            e
        }
    }
}

/// The first of `p, 2p, 4p, ...` that is at least `e`.
pub open spec fn pow2_from(e: int, p: int) -> int
    decreases (if 0 < p < e {
        e - p
    } else {
        0
    }),
{
    if p <= 0 || p >= e {
        p
    } else {
        pow2_from(e, 2 * p)
    }
}

/// The smallest power of two that is at least `e`.
pub open spec fn next_pow2(e: int) -> int {
    pow2_from(e, 1)
}

/// The size that a bin side of length `cur` shrinks to, around content reaching `extent`.
pub open spec fn shrunk_len(cur: int, extent: int, power_of_two: bool) -> int {
    let target = if power_of_two {
        next_pow2(extent)
    } else {
        extent
    };
    if target < cur {
        target
    } else {
        cur
    }
}

/// The padded areas of placed rectangles that lie within `[0, w) x [0, h)` reach no further
/// than its edges.
pub proof fn lemma_extent_bound(placed: Seq<Rectangle>, w: int, h: int)
    requires
        forall|i: int|
            0 <= i < placed.len() ==> within(padded_frame(#[trigger] placed[i]), bin_frame(w, h)),
        w >= 0,
        h >= 0,
    ensures
        0 <= extent_x(placed) <= w,
        0 <= extent_y(placed) <= h,
        forall|i: int|
            0 <= i < placed.len() ==> (#[trigger] placed[i]).right_total() <= extent_x(placed)
                && placed[i].bottom_total() <= extent_y(placed),
    decreases placed.len(),
{
    if placed.len() > 0 {
        let q = placed.drop_last();
        assert forall|i: int| 0 <= i < q.len() implies within(
            padded_frame(#[trigger] q[i]),
            bin_frame(w, h),
        ) by {
            assert(q[i] == placed[i]);
        }
        lemma_extent_bound(q, w, h);
        assert(within(padded_frame(placed[placed.len() - 1]), bin_frame(w, h)));
        assert forall|i: int| 0 <= i < placed.len() implies (
        #[trigger] placed[i]).right_total() <= extent_x(placed) && placed[i].bottom_total()
            <= extent_y(placed) by {
            if i < placed.len() - 1 {
                assert(q[i] == placed[i]);
            }
        }
    }
}

/// Computes `extent_x` and `extent_y`.
pub fn extent(placed: &Vec<Rectangle>) -> (r: (i64, i64))
    ensures
        r.0 == extent_x(placed@),
        r.1 == extent_y(placed@),
{
    let mut ex: i64 = 0;
    let mut ey: i64 = 0;
    let mut i: usize = 0;
    while i < placed.len()
        invariant
            i <= placed@.len(),
            ex == extent_x(placed@.subrange(0, i as int)),
            ey == extent_y(placed@.subrange(0, i as int)),
        decreases placed@.len() - i,
    {
        let r = &placed[i];
        let rx = r.x() as i64 + r.width() as i64 + r.dim().padding() as i64;
        let ry = r.y() as i64 + r.height() as i64 + r.dim().padding() as i64;
        proof {
            assert(placed@.subrange(0, i + 1).drop_last() =~= placed@.subrange(0, i as int));
        }
        if rx > ex {
            ex = rx;
        }
        if ry > ey {
            ey = ry;
        }
        i = i + 1;
    }
    proof {
        assert(placed@.subrange(0, i as int) =~= placed@);
    }
    (ex, ey)
}

/// Computes `next_pow2(e)`.
pub fn next_power_of_two(e: i64) -> (r: i64)
    requires
        0 <= e <= 0x1_0000_0000,
    ensures
        r == next_pow2(e as int),
        r >= e,
{
    let mut p: i64 = 1;
    while p < e
        invariant
            1 <= p <= 0x2_0000_0000,
            0 <= e <= 0x1_0000_0000,
            pow2_from(e as int, p as int) == next_pow2(e as int),
        decreases 0x2_0000_0000 - p,
    {
        p = p * 2;
    }
    p
}

/// The part of `f` that lies within `[0, w) x [0, h)`.
pub open spec fn clipped(f: Region, w: int, h: int) -> Region {
    Region {
        x: f.x,
        y: f.y,
        w: if f.x + f.w > w {
            (w - f.x) as i32
        } else {
            f.w
        },
        h: if f.y + f.h > h {
            (h - f.y) as i32
        } else {
            f.h
        },
    }
}

/// Cuts `f` to `[0, w) x [0, h)`.
pub fn clip(f: Region, w: i32, h: i32) -> (r: Region)
    requires
        w >= 0,
        h >= 0,
        f.x >= 0,
        f.y >= 0,
        f.w >= 0,
        f.h >= 0,
        f.x + f.w <= i32::MAX,
        f.y + f.h <= i32::MAX,
    ensures
        r == clipped(f, w as int, h as int),
{
    let cw = if f.x as i64 + f.w as i64 > w as i64 {
        (w as i64 - f.x as i64) as i32
    } else {
        f.w
    };
    let ch = if f.y as i64 + f.h as i64 > h as i64 {
        (h as i64 - f.y as i64) as i32
    } else {
        f.h
    };
    Region { x: f.x, y: f.y, w: cw, h: ch }
}

/// The area of placed content, padding not counted.
pub open spec fn content_area(placed: Seq<Rectangle>) -> int
    decreases placed.len(),
{
    if placed.len() == 0 {
        0
    } else {
        content_area(placed.drop_last()) + placed.last().spec_width()
            * placed.last().spec_height()
    }
}

/// Computes `content_area`.
pub fn used_area_of(placed: &Vec<Rectangle>) -> (r: i128)
    ensures
        r == content_area(placed@),
{
    let mut sum: i128 = 0;
    let mut i: usize = 0;
    while i < placed.len()
        invariant
            i <= placed@.len(),
            sum == content_area(placed@.subrange(0, i as int)),
            0 <= sum <= i * 0x4000_0000_0000_0000,
        decreases placed@.len() - i,
    {
        let a = placed[i].dim().area();
        proof {
            assert(placed@.subrange(0, i + 1).drop_last() =~= placed@.subrange(0, i as int));
            assert(a <= 0x4000_0000_0000_0000) by (nonlinear_arith)
                requires
                    a == placed@[i as int].spec_width() * placed@[i as int].spec_height(),
                    i32::MIN <= placed@[i as int].spec_width() <= i32::MAX,
                    i32::MIN <= placed@[i as int].spec_height() <= i32::MAX,
            ;
        }
        sum = sum + a as i128;
        i = i + 1;
    }
    proof {
        assert(placed@.subrange(0, i as int) =~= placed@);
    }
    sum
}

/// `s` with `r` appended where `r` is not empty.
pub open spec fn keep_nonempty(s: Seq<Region>, r: Region) -> Seq<Region> {
    if r.nonempty() {
        s.push(r)
    } else {
        s
    }
}

/// Each region cut to `[0, w) x [0, h)`, in order, those left empty dropped.
pub open spec fn clip_all(free: Seq<Region>, w: int, h: int) -> Seq<Region>
    decreases free.len(),
{
    if free.len() == 0 {
        Seq::empty()
    } else {
        keep_nonempty(clip_all(free.drop_last(), w, h), clipped(free.last(), w, h))
    }
}

/// `pow2_from(e, p)` is at least `e` and positive.
pub proof fn lemma_pow2_from(e: int, p: int)
    requires
        p >= 1,
    ensures
        pow2_from(e, p) >= e,
        pow2_from(e, p) >= 1,
    decreases (if 0 < p < e {
        e - p
    } else {
        0
    }),
{
    if p < e {
        lemma_pow2_from(e, 2 * p);
    }
}

/// One step of `clip_regions` keeps every point of the bin that the regions before it cover.
proof fn lemma_clip_covers(
    free: Seq<Region>,
    prev: Seq<Region>,
    out: Seq<Region>,
    c: Region,
    i: int,
    w: int,
    h: int,
)
    requires
        0 <= i < free.len(),
        c == clipped(free[i], w, h),
        free[i].nonempty(),
        0 <= w,
        0 <= h,
        out == (if c.nonempty() {
            prev.push(c)
        } else {
            prev
        }),
        forall|m: int, px: int, py: int|
            0 <= m < i && #[trigger] covers(free[m], px, py) && 0 <= px < w && 0 <= py < h
                ==> free_covers(prev, px, py),
    ensures
        forall|m: int, px: int, py: int|
            0 <= m < i + 1 && #[trigger] covers(free[m], px, py) && 0 <= px < w && 0 <= py < h
                ==> free_covers(out, px, py),
{
    assert forall|m: int, px: int, py: int|
        0 <= m < i + 1 && #[trigger] covers(free[m], px, py) && 0 <= px < w && 0 <= py < h
            implies free_covers(out, px, py) by {
        if m == i {
            assert(covers(c, px, py));
            assert(out[out.len() - 1] == c);
        } else {
            let a = choose|a: int| 0 <= a < prev.len() && covers(#[trigger] prev[a], px, py);
            assert(out[a] == prev[a]);
        }
    }
}

/// Cuts each free region to `[0, w) x [0, h)` and drops those left empty.
pub fn clip_regions(free: &Vec<Region>, w: i32, h: i32) -> (r: Vec<Region>)
    requires
        w >= 0,
        h >= 0,
        forall|i: int|
            #![trigger free@[i]]
            0 <= i < free@.len() ==> free@[i].nonempty() && free@[i].x >= 0 && free@[i].y >= 0
                && free@[i].x + free@[i].w <= i32::MAX && free@[i].y + free@[i].h <= i32::MAX,
    ensures
        r@ == clip_all(free@, w as int, h as int),
        forall|a: int|
            #![trigger r@[a]]
            0 <= a < r@.len() ==> r@[a].nonempty() && within(r@[a].frame(), bin_frame(w as int, h as int))
                && exists|m: int| 0 <= m < free@.len() && within(r@[a].frame(), #[trigger] free@[m].frame()),
        free_disjoint(free@) ==> free_disjoint(r@),
        forall|m: int, px: int, py: int|
            0 <= m < free@.len() && #[trigger] covers(free@[m], px, py) && 0 <= px < w && 0 <= py < h
                ==> free_covers(r@, px, py),
{
    let mut out: Vec<Region> = Vec::new();
    let mut i: usize = 0;
    while i < free.len()
        invariant
            w >= 0,
            h >= 0,
            i <= free@.len(),
            out@ == clip_all(free@.subrange(0, i as int), w as int, h as int),
            forall|i: int|
                #![trigger free@[i]]
                0 <= i < free@.len() ==> free@[i].nonempty() && free@[i].x >= 0 && free@[i].y >= 0
                    && free@[i].x + free@[i].w <= i32::MAX && free@[i].y + free@[i].h <= i32::MAX,
            forall|a: int|
                #![trigger out@[a]]
                0 <= a < out@.len() ==> out@[a].nonempty() && within(out@[a].frame(), bin_frame(w as int, h as int))
                    && exists|m: int| 0 <= m < i && within(out@[a].frame(), #[trigger] free@[m].frame()),
            free_disjoint(free@) ==> free_disjoint(out@),
            forall|m: int, px: int, py: int|
                0 <= m < i && #[trigger] covers(free@[m], px, py) && 0 <= px < w && 0 <= py < h
                    ==> free_covers(out@, px, py),
        decreases free@.len() - i,
    {
        let f = free[i];
        let c = clip(f, w, h);
        let ghost prev_out = out@;
        proof {
            assert(free@.subrange(0, i + 1).drop_last() =~= free@.subrange(0, i as int));
            assert(free@.subrange(0, i + 1).last() == f);
        }
        if c.w > 0 && c.h > 0 {
            let ghost prev = out@;
            out.push(c);
            proof {
                assert(within(c.frame(), f.frame()));
                assert forall|a: int|
                    #![trigger out@[a]]
                    0 <= a < out@.len() implies out@[a].nonempty() && within(
                        out@[a].frame(),
                        bin_frame(w as int, h as int),
                    ) && exists|m: int| 0 <= m < i + 1 && within(out@[a].frame(), #[trigger] free@[m].frame()) by {
                    if a < prev.len() {
                        assert(out@[a] == prev[a]);
                    } else {
                        assert(out@[a] == c);
                        assert(within(out@[a].frame(), free@[i as int].frame()));
                    }
                }
                if free_disjoint(free@) {
                    assert forall|a: int, b: int|
                        #![trigger out@[a], out@[b]]
                        0 <= a < out@.len() && 0 <= b < out@.len() && a != b implies apart(
                            out@[a].frame(),
                            out@[b].frame(),
                        ) by {
                        if a < prev.len() && b < prev.len() {
                            assert(out@[a] == prev[a]);
                            assert(out@[b] == prev[b]);
                        } else if a < prev.len() {
                            assert(out@[a] == prev[a]);
                            let m = choose|m: int| 0 <= m < i && within(prev[a].frame(), #[trigger] free@[m].frame());
                            assert(apart(free@[m].frame(), free@[i as int].frame()));
                        } else {
                            assert(out@[b] == prev[b]);
                            let m = choose|m: int| 0 <= m < i && within(prev[b].frame(), #[trigger] free@[m].frame());
                            assert(apart(free@[m].frame(), free@[i as int].frame()));
                        }
                    }
                }
            }
        }
        proof {
            lemma_clip_covers(free@, prev_out, out@, c, i as int, w as int, h as int);
        }
        i = i + 1;
    }
    proof {
        assert(free@.subrange(0, i as int) =~= free@);
    }
    out
}

/// `i` is the position of the first rectangle of `placed` with identifier `id`.
pub open spec fn first_with_id(placed: Seq<Rectangle>, id: isize, i: int) -> bool {
    &&& 0 <= i < placed.len()
    &&& placed[i].spec_id() == id
    &&& forall|j: int| 0 <= j < i ==> (#[trigger] placed[j]).spec_id() != id
}

/// The position of the first rectangle of `placed` with identifier `id`.
pub fn find_first(placed: &Vec<Rectangle>, id: isize) -> (r: Option<usize>)
    ensures
        match r {
            Some(i) => first_with_id(placed@, id, i as int),
            None => forall|i: int| 0 <= i < placed@.len() ==> (#[trigger] placed@[i]).spec_id() != id,
        },
{
    let mut i: usize = 0;
    while i < placed.len()
        invariant
            i <= placed@.len(),
            forall|j: int| 0 <= j < i ==> (#[trigger] placed@[j]).spec_id() != id,
        decreases placed@.len() - i,
    {
        if placed[i].id() == id {
            return Some(i);
        }
        i = i + 1;
    }
    None
}

/// Free space of a fresh bin of width `w` and height `h`.
pub open spec fn initial_free(w: int, h: int) -> Seq<Region> {
    if w > 0 && h > 0 {
        seq![Region { x: 0, y: 0, w: w as i32, h: h as i32 }]
    } else {
        Seq::empty()
    }
}

/// A bin side of length `cur` grown by `d`, bound by `i32::MAX`; negative `d` change nothing.
pub open spec fn grown_len(cur: int, d: int) -> int {
    if d <= 0 {
        cur
    } else if cur + d > i32::MAX {
        i32::MAX as int
    } else {
        cur + d
    }
}

pub fn clamp_len(v: i32) -> (r: i32)
    ensures
        r == if v < 0 {
            0
        } else {
            v
        },
{
    if v < 0 {
        0
    } else {
        v
    }
}

/// `cur` grown by `d` as `grown_len` says.
pub fn grow_len(cur: i32, d: i32) -> (r: i32)
    requires
        cur >= 0,
    ensures
        r == grown_len(cur as int, d as int),
{
    if d <= 0 {
        cur
    } else if cur as i64 + d as i64 > i32::MAX as i64 {
        i32::MAX
    } else {
        cur + d
    }
}

/// The size of a `w` by `h` bin shrunk around `placed`.
pub open spec fn shrunk_size(w: int, h: int, placed: Seq<Rectangle>, power_of_two: bool) -> (
    int,
    int,
) {
    if placed.len() == 0 {
        (w, h)
    } else {
        (
            shrunk_len(w, extent_x(placed), power_of_two),
            shrunk_len(h, extent_y(placed), power_of_two),
        )
    }
}

/// Computes `shrunk_size`, and shows that what is placed stays within it.
pub fn shrink_to(placed: &Vec<Rectangle>, w: i32, h: i32, power_of_two: bool) -> (r: (i32, i32))
    requires
        w >= 0,
        h >= 0,
        placed_ok(placed@, w as int, h as int),
    ensures
        (r.0 as int, r.1 as int) == shrunk_size(w as int, h as int, placed@, power_of_two),
        0 <= r.0 <= w,
        0 <= r.1 <= h,
        placed_ok(placed@, r.0 as int, r.1 as int),
{
    if placed.len() == 0 {
        return (w, h);
    }
    let (ex, ey) = extent(placed);
    proof {
        lemma_extent_bound(placed@, w as int, h as int);
        lemma_pow2_from(ex as int, 1);
        lemma_pow2_from(ey as int, 1);
    }
    let tx = if power_of_two {
        next_power_of_two(ex)
    } else {
        ex
    };
    let ty = if power_of_two {
        next_power_of_two(ey)
    } else {
        ey
    };
    let nw = if tx < w as i64 {
        tx as i32
    } else {
        w
    };
    let nh = if ty < h as i64 {
        ty as i32
    } else {
        h
    };
    proof {
        let p = placed@;
        assert forall|i: int| #![trigger p[i]] 0 <= i < p.len() implies within(
            padded_frame(p[i]),
            bin_frame(nw as int, nh as int),
        ) by {
            assert(within(padded_frame(p[i]), bin_frame(w as int, h as int)));
        }
    }
    (nw, nh)
}


/// Shrinking a second time with the same mode leaves the size as the first shrink left it.
pub proof fn lemma_shrink_idempotent(
    w: int,
    h: int,
    placed: Seq<Rectangle>,
    power_of_two: bool,
)
    requires
        w >= 0,
        h >= 0,
    ensures
        ({
            let s = shrunk_size(w, h, placed, power_of_two);
            shrunk_size(s.0, s.1, placed, power_of_two) == s
        }),
{
}

/// Point `(px, py)` lies in region `f`.
pub open spec fn covers(f: Region, px: int, py: int) -> bool {
    f.x <= px < f.x + f.w && f.y <= py < f.y + f.h
}

/// Point `(px, py)` lies in one of the free regions.
pub open spec fn free_covers(free: Seq<Region>, px: int, py: int) -> bool {
    exists|k: int| 0 <= k < free.len() && covers(#[trigger] free[k], px, py)
}

/// Point `(px, py)` lies in the padded area of `r`.
pub open spec fn in_padded(r: Rectangle, px: int, py: int) -> bool {
    r.left_total() <= px < r.right_total() && r.top_total() <= py < r.bottom_total()
}

/// Point `(px, py)` lies in the padded area of a placed rectangle.
pub open spec fn placed_covers(placed: Seq<Rectangle>, px: int, py: int) -> bool {
    exists|k: int| 0 <= k < placed.len() && in_padded(#[trigger] placed[k], px, py)
}

/// Point `(px, py)` lies in free space or in a placed rectangle's padded area.
pub open spec fn point_covered(
    free: Seq<Region>,
    placed: Seq<Rectangle>,
    px: int,
    py: int,
) -> bool {
    free_covers(free, px, py) || placed_covers(placed, px, py)
}

/// Free space and the placed padded areas together cover the `w` by `h` bin.
pub open spec fn covered(free: Seq<Region>, placed: Seq<Rectangle>, w: int, h: int) -> bool {
    forall|px: int, py: int|
        0 <= px < w && 0 <= py < h ==> #[trigger] point_covered(free, placed, px, py)
}

/// Point `(x, y)` lies in the content of a placed rectangle.
pub open spec fn occupied(placed: Seq<Rectangle>, x: int, y: int) -> bool {
    exists|k: int|
        0 <= k < placed.len() && (#[trigger] placed[k]).left() <= x < placed[k].right()
            && placed[k].top() <= y < placed[k].bottom()
}

/// The character drawn for cell `(x, y)`: `#` where content lies, `.` elsewhere.
pub open spec fn cell_char(placed: Seq<Rectangle>, x: int, y: int) -> char {
    if occupied(placed, x, y) {
        '#'
    } else {
        '.'
    }
}

/// The first `n` cells of row `y`.
pub open spec fn row_prefix(placed: Seq<Rectangle>, y: int, n: int) -> Seq<char> {
    Seq::new(n as nat, |x: int| cell_char(placed, x, y))
}

/// The first `n` rows of a `w` wide grid, each ended by a line break.
pub open spec fn grid_rows(placed: Seq<Rectangle>, w: int, n: int) -> Seq<char>
    decreases n,
{
    if n <= 0 {
        Seq::empty()
    } else {
        grid_rows(placed, w, n - 1) + row_prefix(placed, n - 1, w) + seq!['\n']
    }
}

/// A side length, negative values taken as 0.
pub open spec fn len0(v: i32) -> int {
    if v < 0 {
        0
    } else {
        v as int
    }
}

/// Whether cell `(x, y)` lies in the content of a placed rectangle.
fn is_occupied(placed: &[Rectangle], x: i32, y: i32) -> (r: bool)
    ensures
        r == occupied(placed@, x as int, y as int),
{
    let mut k: usize = 0;
    while k < placed.len()
        invariant
            k <= placed@.len(),
            forall|j: int|
                0 <= j < k ==> !((#[trigger] placed@[j]).left() <= x < placed@[j].right()
                    && placed@[j].top() <= y < placed@[j].bottom()),
        decreases placed@.len() - k,
    {
        let r = &placed[k];
        let rx = r.x() as i64;
        let ry = r.y() as i64;
        if rx <= x as i64 && (x as i64) < rx + r.width() as i64 && ry <= y as i64 && (y as i64) < ry
            + r.height() as i64 {
            return true;
        }
        k = k + 1;
    }
    false
}

/// Draws the content of `placed` on a `w` by `h` character grid, row by row: `#` where
/// content lies, `.` elsewhere, each row ended by a line break.
pub fn draw_grid(placed: &[Rectangle], w: i32, h: i32) -> (r: String)
    ensures
        r@ == grid_rows(placed@, len0(w), len0(h)),
{
    let mut out = String::new();
    let mut y: i32 = 0;
    while y < h
        invariant
            0 <= y,
            y <= h || h < 0,
            h < 0 ==> y == 0,
            out@ == grid_rows(placed@, if w < 0 {
                0
            } else {
                w as int
            }, y as int),
        decreases h as int - y as int,
    {
        let ghost start = out@;
        let mut x: i32 = 0;
        while x < w
            invariant
                0 <= x,
                x <= w || w < 0,
                w < 0 ==> x == 0,
                out@ == start + row_prefix(placed@, y as int, x as int),
            decreases w as int - x as int,
        {
            let ghost before = out@;
            proof {
                reveal_strlit("#");
                reveal_strlit(".");
            }
            if is_occupied(placed, x, y) {
                out.append("#");
            } else {
                out.append(".");
            }
            proof {
                assert(row_prefix(placed@, y as int, x + 1) =~= row_prefix(placed@, y as int, x as int)
                    + seq![cell_char(placed@, x as int, y as int)]);
            }
            x = x + 1;
        }
        proof {
            reveal_strlit("\n");
        }
        out.append("\n");
        proof {
            let wl = if w < 0 {
                0
            } else {
                w as int
            };
            assert(x as int == wl);
            assert(out@ =~= grid_rows(placed@, wl, y + 1));
        }
        y = y + 1;
    }
    out
}

} // verus!
