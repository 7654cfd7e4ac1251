//! The MaxRects algorithm: free space is a list of maximal, possibly overlapping regions;
//! each placement cuts every region it touches into the parts it leaves free, and regions
//! held within others are dropped.
//!
//! Objects are never turned. Of equally scored candidates the one with the lowest
//! free-region index wins.
use vstd::prelude::*;

use crate::binpack::{check_items, first_error, item_error, lemma_no_error, BinError};
use crate::dimension::Dimension;
use crate::rectangle::Rectangle;
use crate::region::{
    apart, bin_frame, clamp_len, clip_all, clip_regions, content_area, covered, covers, draw_grid,
    find_first, first_with_id, free_covers, free_ok, grid_rows, grow_len, grown_len, in_padded,
    initial_free, keep_nonempty, lemma_no_intersection, len0, padded_frame, placed_covers,
    placed_ok, point_covered, shrink_to, shrunk_size, used_area_of, within, Frame, Region,
};

verus! {

/// How a free region is chosen for an object.
#[derive(Clone, Copy, Debug, PartialEq, Eq, Structural, Hash)]
pub enum Heuristic {
    /// Smallest shorter leftover side, then smallest longer one.
    BestShortSideFit,
    /// Smallest longer leftover side, then smallest shorter one.
    BestLongSideFit,
    /// Least area left over, then smallest shorter leftover side.
    BestAreaFit,
    /// Lowest bottom edge, then leftmost.
    BottomLeftRule,
    /// Longest edge shared with the bin's border and with placed rectangles.
    ContactPointRule,
}

/// The length that the intervals `[a0, a1]` and `[b0, b1]` share.
pub open spec fn common_len(a0: int, a1: int, b0: int, b1: int) -> int {
    if a1 < b0 || b1 < a0 {
        0
    } else {
        (if a1 < b1 {
            a1
        } else {
            b1
        }) - (if a0 > b0 {
            a0
        } else {
            b0
        })
    }
}

/// The edge that a `w` by `h` area at `(x, y)` shares with the padded area of `q`.
pub open spec fn contact_with(q: Frame, x: int, y: int, w: int, h: int) -> int {
    (if q.0 == x + w || q.2 == x {
        common_len(q.1, q.3, y, y + h)
    } else {
        0
    }) + (if q.1 == y + h || q.3 == y {
        common_len(q.0, q.2, x, x + w)
    } else {
        0
    })
}

/// The edge that a `w` by `h` area at `(x, y)` shares with the first `n` placed rectangles.
pub open spec fn contact_sum(placed: Seq<Rectangle>, n: int, x: int, y: int, w: int, h: int) -> int
    decreases n,
{
    if n <= 0 {
        0
    } else {
        contact_sum(placed, n - 1, x, y, w, h) + contact_with(padded_frame(placed[n - 1]), x, y, w, h)
    }
}

/// The edge that a `w` by `h` area at `(x, y)` shares with the border of a `bw` by `bh`
/// bin.
pub open spec fn contact_border(x: int, y: int, w: int, h: int, bw: int, bh: int) -> int {
    (if x == 0 || x + w == bw {
        h
    } else {
        0
    }) + (if y == 0 || y + h == bh {
        w
    } else {
        0
    })
}

/// `v`, bound by `i64::MAX`.
pub open spec fn cap(v: int) -> int {
    if v > i64::MAX {
        i64::MAX as int
    } else {
        v
    }
}

/// The contact score of a `w` by `h` area at `(x, y)`, bound by `i64::MAX`.
pub open spec fn contact_score(
    placed: Seq<Rectangle>,
    x: int,
    y: int,
    w: int,
    h: int,
    bw: int,
    bh: int,
) -> int {
    cap(contact_border(x, y, w, h, bw, bh) + contact_sum(placed, placed.len() as int, x, y, w, h))
}

/// The score of placing a `w` by `h` object at the corner of `f`: the lower, the better,
/// first by the first part, then by the second.
pub open spec fn rule_key(
    rule: Heuristic,
    f: Region,
    w: int,
    h: int,
    placed: Seq<Rectangle>,
    bw: int,
    bh: int,
) -> (int, int) {
    let dw = f.w - w;
    let dh = f.h - h;
    let short = if dw <= dh {
        dw
    } else {
        dh
    };
    let long = if dw <= dh {
        dh
    } else {
        dw
    };
    match rule {
        Heuristic::BestShortSideFit => (short, long),
        Heuristic::BestLongSideFit => (long, short),
        Heuristic::BestAreaFit => (f.w * f.h - w * h, short),
        Heuristic::BottomLeftRule => (f.y + h, f.x as int),
        Heuristic::ContactPointRule => (-contact_score(placed, f.x as int, f.y as int, w, h, bw, bh), 0),
    }
}

/// A placement candidate: index of the free region and its score.
pub type Choice = (int, int, int);

/// The best candidate among the first `n` free regions; of equal scores the lowest index
/// wins.
pub open spec fn best_fit(
    free: Seq<Region>,
    n: int,
    w: int,
    h: int,
    rule: Heuristic,
    placed: Seq<Rectangle>,
    bw: int,
    bh: int,
) -> Option<Choice>
    decreases n,
{
    if n <= 0 {
        None
    } else {
        let prev = best_fit(free, n - 1, w, h, rule, placed, bw, bh);
        let f = free[n - 1];
        if f.fits(w, h) {
            let k = rule_key(rule, f, w, h, placed, bw, bh);
            match prev {
                None => Some((n - 1, k.0, k.1)),
                Some(b) => if k.0 < b.1 || (k.0 == b.1 && k.1 < b.2) {
                    Some((n - 1, k.0, k.1))
                } else {
                    prev
                },
            }
        } else {
            prev
        }
    }
}

/// The parts of `f` that the area `u` leaves free, where the two overlap: above, below,
/// left and right of `u`, those that are empty left out.
pub open spec fn slices(f: Region, u: Frame) -> Seq<Region> {
    let fx1 = f.x + f.w;
    let fy1 = f.y + f.h;
    let s0 = if u.1 > f.y {
        seq![Region { x: f.x, y: f.y, w: f.w, h: (u.1 - f.y) as i32 }]
    } else {
        Seq::empty()
    };
    let s1 = if u.3 < fy1 {
        s0.push(Region { x: f.x, y: u.3 as i32, w: f.w, h: (fy1 - u.3) as i32 })
    } else {
        s0
    };
    let s2 = if u.0 > f.x {
        s1.push(Region { x: f.x, y: f.y, w: (u.0 - f.x) as i32, h: f.h })
    } else {
        s1
    };
    if u.2 < fx1 {
        s2.push(Region { x: u.2 as i32, y: f.y, w: (fx1 - u.2) as i32, h: f.h })
    } else {
        s2
    }
}

/// The free regions that the area `u` does not touch, in order.
pub open spec fn untouched(free: Seq<Region>, u: Frame) -> Seq<Region>
    decreases free.len(),
{
    if free.len() == 0 {
        Seq::empty()
    } else {
        let prev = untouched(free.drop_last(), u);
        if apart(free.last().frame(), u) {
            prev.push(free.last())
        } else {
            prev
        }
    }
}

/// The parts that the area `u` leaves free of the free regions it touches, in order.
pub open spec fn cut_parts(free: Seq<Region>, u: Frame) -> Seq<Region>
    decreases free.len(),
{
    if free.len() == 0 {
        Seq::empty()
    } else {
        let prev = cut_parts(free.drop_last(), u);
        if apart(free.last().frame(), u) {
            prev
        } else {
            prev + slices(free.last(), u)
        }
    }
}

/// Region `i` lies within another region, and is not the first of equal ones.
pub open spec fn redundant(free: Seq<Region>, i: int) -> bool {
    exists|j: int|
        0 <= j < free.len() && j != i && within(free[i].frame(), #[trigger] free[j].frame()) && (
        free[j] != free[i] || j < i)
}

/// The first `n` free regions without those that `redundant` names.
pub open spec fn pruned_upto(free: Seq<Region>, n: int) -> Seq<Region>
    decreases n,
{
    if n <= 0 {
        Seq::empty()
    } else {
        let prev = pruned_upto(free, n - 1);
        if redundant(free, n - 1) {
            prev
        } else {
            prev.push(free[n - 1])
        }
    }
}

/// The free regions without those that `redundant` names.
pub open spec fn pruned(free: Seq<Region>) -> Seq<Region> {
    pruned_upto(free, free.len() as int)
}

/// No region of `free` lies within another.
pub open spec fn minimal(free: Seq<Region>) -> bool {
    forall|a: int, b: int|
        #![trigger free[a], free[b]]
        0 <= a < free.len() && 0 <= b < free.len() && a != b ==> !within(
            free[a].frame(),
            free[b].frame(),
        )
}

/// After pruning, no free region lies within another.
pub proof fn lemma_pruned_minimal(free: Seq<Region>)
    ensures
        minimal(pruned(free)),
{
    lemma_pruned_upto(free, free.len() as int);
}

proof fn lemma_pruned_upto(free: Seq<Region>, n: int)
    requires
        0 <= n <= free.len(),
    ensures
        minimal(pruned_upto(free, n)),
        forall|a: int|
            #![trigger pruned_upto(free, n)[a]]
            0 <= a < pruned_upto(free, n).len() ==> exists|s: int|
                0 <= s < n && pruned_upto(free, n)[a] == free[s] && !redundant(free, s),
    decreases n,
{
    if n > 0 {
        lemma_pruned_upto(free, n - 1);
        let prev = pruned_upto(free, n - 1);
        let out = pruned_upto(free, n);
        if !redundant(free, n - 1) {
            let e = free[n - 1];
            assert forall|a: int|
                #![trigger out[a]]
                0 <= a < out.len() implies exists|s: int|
                    0 <= s < n && out[a] == free[s] && !redundant(free, s) by {
                if a < prev.len() {
                    assert(out[a] == prev[a]);
                    let s = choose|s: int| 0 <= s < n - 1 && prev[a] == free[s] && !redundant(free, s);
                    assert(0 <= s < n && out[a] == free[s]);
                } else {
                    assert(out[a] == free[n - 1]);
                }
            }
            assert forall|a: int, b: int|
                #![trigger out[a], out[b]]
                0 <= a < out.len() && 0 <= b < out.len() && a != b implies !within(
                    out[a].frame(),
                    out[b].frame(),
                ) by {
                if a < prev.len() && b < prev.len() {
                    assert(out[a] == prev[a] && out[b] == prev[b]);
                } else if a < prev.len() {
                    assert(out[a] == prev[a]);
                    assert(out[b] == e);
                    let s = choose|s: int| 0 <= s < n - 1 && prev[a] == free[s] && !redundant(free, s);
                    if within(free[s].frame(), e.frame()) {
                        if free[n - 1] != free[s] {
                            assert(redundant(free, s));
                        } else {
                            assert(within(e.frame(), free[s].frame()));
                            assert(redundant(free, n - 1));
                        }
                    }
                } else {
                    assert(out[b] == prev[b]);
                    assert(out[a] == e);
                    let s = choose|s: int| 0 <= s < n - 1 && prev[b] == free[s] && !redundant(free, s);
                    if within(e.frame(), free[s].frame()) {
                        assert(redundant(free, n - 1));
                    }
                }
            }
        }
    }
}

/// Free regions, placed rectangles and result after inserting `d`.
pub open spec fn insert_outcome(
    free: Seq<Region>,
    placed: Seq<Rectangle>,
    d: Dimension,
    rule: Heuristic,
    bw: int,
    bh: int,
) -> (Seq<Region>, Seq<Rectangle>, Option<Rectangle>) {
    let w = d.spec_width_total();
    let h = d.spec_height_total();
    if w == 0 || h == 0 {
        (free, placed, None)
    } else {
        match best_fit(free, free.len() as int, w, h, rule, placed, bw, bh) {
            None => (free, placed, None),
            Some(c) => {
                let f = free[c.0];
                let r = Rectangle::spec_new(
                    (f.x + d.spec_padding()) as i32,
                    (f.y + d.spec_padding()) as i32,
                    d,
                );
                let u = (f.x as int, f.y as int, f.x + w, f.y + h);
                (pruned(untouched(free, u) + cut_parts(free, u)), placed.push(r), Some(r))
            },
        }
    }
}

/// Free regions, placed rectangles, inserted rectangles and rejected objects after
/// inserting each of `dims` in turn.
pub open spec fn insert_list_outcome(
    free: Seq<Region>,
    placed: Seq<Rectangle>,
    dims: Seq<Dimension>,
    rule: Heuristic,
    bw: int,
    bh: int,
) -> (Seq<Region>, Seq<Rectangle>, Seq<Rectangle>, Seq<Dimension>)
    decreases dims.len(),
{
    if dims.len() == 0 {
        (free, placed, Seq::empty(), Seq::empty())
    } else {
        let prev = insert_list_outcome(free, placed, dims.drop_last(), rule, bw, bh);
        let step = insert_outcome(prev.0, prev.1, dims.last(), rule, bw, bh);
        match step.2 {
            Some(r) => (step.0, step.1, prev.2.push(r), prev.3),
            None => (step.0, step.1, prev.2, prev.3.push(dims.last())),
        }
    }
}

/// Free regions added when a `w` by `h` bin grows to `nw` by `nh`: the strip on the right
/// over the full new height, then the one below over the full new width.
pub open spec fn grow_regions(w: int, h: int, nw: int, nh: int) -> Seq<Region> {
    keep_nonempty(
        keep_nonempty(
            Seq::empty(),
            Region { x: w as i32, y: 0, w: (nw - w) as i32, h: nh as i32 },
        ),
        Region { x: 0, y: h as i32, w: nw as i32, h: (nh - h) as i32 },
    )
}

/// A bin packed with the MaxRects algorithm.
pub struct MaxRectsBin {
    width: i32,
    height: i32,
    free: Vec<Region>,
    placed: Vec<Rectangle>,
}

/// Computes `common_len`.
fn common_length(a0: i64, a1: i64, b0: i64, b1: i64) -> (r: i64)
    requires
        -0x1_0000_0000 <= a0 <= 0x1_0000_0000,
        -0x1_0000_0000 <= a1 <= 0x1_0000_0000,
        -0x1_0000_0000 <= b0 <= 0x1_0000_0000,
        -0x1_0000_0000 <= b1 <= 0x1_0000_0000,
    ensures
        r == common_len(a0 as int, a1 as int, b0 as int, b1 as int),
{
    if a1 < b0 || b1 < a0 {
        0
    } else {
        (if a1 < b1 {
            a1
        } else {
            b1
        }) - (if a0 > b0 {
            a0
        } else {
            b0
        })
    }
}

/// The padded area of `r`, computed.
fn frame_of(r: &Rectangle) -> (q: (i64, i64, i64, i64))
    ensures
        q.0 == padded_frame(*r).0,
        q.1 == padded_frame(*r).1,
        q.2 == padded_frame(*r).2,
        q.3 == padded_frame(*r).3,
{
    let p = r.dim().padding() as i64;
    let x = r.x() as i64;
    let y = r.y() as i64;
    (x - p, y - p, x + r.width() as i64 + p, y + r.height() as i64 + p)
}

/// Computes `contact_score`.
fn contact(placed: &Vec<Rectangle>, x: i64, y: i64, w: i64, h: i64, bw: i64, bh: i64) -> (r: i64)
    requires
        0 <= x <= i32::MAX,
        0 <= y <= i32::MAX,
        0 < w <= i32::MAX,
        0 < h <= i32::MAX,
        x + w <= bw <= i32::MAX,
        y + h <= bh <= i32::MAX,
        placed_ok(placed@, bw as int, bh as int),
    ensures
        r == contact_score(placed@, x as int, y as int, w as int, h as int, bw as int, bh as int),
        r >= 0,
{
    let mut score: i64 = 0;
    if x == 0 || x + w == bw {
        score = score + h;
    }
    if y == 0 || y + h == bh {
        score = score + w;
    }
    let ghost border = score as int;
    let mut i: usize = 0;
    while i < placed.len()
        invariant
            i <= placed@.len(),
            0 <= x <= i32::MAX,
            0 <= y <= i32::MAX,
            0 < w <= i32::MAX,
            0 < h <= i32::MAX,
            x + w <= bw <= i32::MAX,
            y + h <= bh <= i32::MAX,
            placed_ok(placed@, bw as int, bh as int),
            border == contact_border(x as int, y as int, w as int, h as int, bw as int, bh as int),
            score == cap(border + contact_sum(placed@, i as int, x as int, y as int, w as int, h as int)),
            contact_sum(placed@, i as int, x as int, y as int, w as int, h as int) >= 0,
        decreases placed@.len() - i,
    {
        let q = frame_of(&placed[i]);
        proof {
            assert(within(padded_frame(placed@[i as int]), bin_frame(bw as int, bh as int)));
        }
        let mut t: i64 = 0;
        if q.0 == x + w || q.2 == x {
            t = t + common_length(q.1, q.3, y, y + h);
        }
        if q.1 == y + h || q.3 == y {
            t = t + common_length(q.0, q.2, x, x + w);
        }
        proof {
            assert(t == contact_with(padded_frame(placed@[i as int]), x as int, y as int, w as int, h as int));
            assert(t >= 0);
        }
        if score > i64::MAX - t {
            score = i64::MAX;
        } else {
            score = score + t;
        }
        i = i + 1;
    }
    score
}

/// Computes `rule_key`.
fn key_of(
    rule: Heuristic,
    f: Region,
    w: i64,
    h: i64,
    placed: &Vec<Rectangle>,
    bw: i32,
    bh: i32,
) -> (r: (i64, i64))
    requires
        0 < w <= f.w,
        0 < h <= f.h,
        0 <= f.x,
        0 <= f.y,
        f.x + f.w <= bw,
        f.y + f.h <= bh,
        placed_ok(placed@, bw as int, bh as int),
    ensures
        (r.0 as int, r.1 as int) == rule_key(rule, f, w as int, h as int, placed@, bw as int, bh as int),
{
    let dw = f.w as i64 - w;
    let dh = f.h as i64 - h;
    let short = if dw <= dh {
        dw
    } else {
        dh
    };
    let long = if dw <= dh {
        dh
    } else {
        dw
    };
    match rule {
        Heuristic::BestShortSideFit => (short, long),
        Heuristic::BestLongSideFit => (long, short),
        Heuristic::BestAreaFit => {
            proof {
                assert(0 <= f.w * f.h <= 0x8000_0000 * 0x8000_0000) by (nonlinear_arith)
                    requires
                        0 <= f.w <= 0x8000_0000,
                        0 <= f.h <= 0x8000_0000,
                ;
                assert(0 <= w * h <= f.w * f.h) by (nonlinear_arith)
                    requires
                        0 <= w <= f.w,
                        0 <= h <= f.h,
                ;
            }
            (f.w as i64 * f.h as i64 - w * h, short)
        },
        Heuristic::BottomLeftRule => (f.y as i64 + h, f.x as i64),
        Heuristic::ContactPointRule => {
            let c = contact(placed, f.x as i64, f.y as i64, w, h, bw as i64, bh as i64);
            (-c, 0)
        },
    }
}

/// The exec form of a candidate.
pub open spec fn choice_view(c: Option<(usize, i64, i64)>) -> Option<Choice> {
    match c {
        None => None,
        Some(t) => Some((t.0 as int, t.1 as int, t.2 as int)),
    }
}

/// The best candidate, where there is one, names a free region that the object fits.
proof fn lemma_best_fit(
    free: Seq<Region>,
    n: int,
    w: int,
    h: int,
    rule: Heuristic,
    placed: Seq<Rectangle>,
    bw: int,
    bh: int,
)
    requires
        0 <= n <= free.len(),
    ensures
        match best_fit(free, n, w, h, rule, placed, bw, bh) {
            Some(c) => 0 <= c.0 < n && free[c.0].fits(w, h),
            None => true,
        },
    decreases n,
{
    if n > 0 {
        lemma_best_fit(free, n - 1, w, h, rule, placed, bw, bh);
    }
}

/// The parts that a placed area leaves of a free region it overlaps are not empty, lie within
/// the region and do not overlap the placed area.
proof fn lemma_slices(f: Region, u: Frame)
    requires
        !apart(f.frame(), u),
        f.nonempty(),
        0 <= f.x,
        0 <= f.y,
        f.x + f.w <= i32::MAX,
        f.y + f.h <= i32::MAX,
        0 <= u.0 <= u.2 <= i32::MAX,
        0 <= u.1 <= u.3 <= i32::MAX,
    ensures
        forall|m: int|
            #![trigger slices(f, u)[m]]
            0 <= m < slices(f, u).len() ==> slices(f, u)[m].nonempty() && within(
                slices(f, u)[m].frame(),
                f.frame(),
            ) && apart(slices(f, u)[m].frame(), u),
        forall|px: int, py: int|
            #[trigger] covers(f, px, py) && !in_frame(u, px, py) ==> free_covers(slices(f, u), px, py),
{
    let fx1 = f.x + f.w;
    let fy1 = f.y + f.h;
    let t = Region { x: f.x, y: f.y, w: f.w, h: (u.1 - f.y) as i32 };
    let b = Region { x: f.x, y: u.3 as i32, w: f.w, h: (fy1 - u.3) as i32 };
    let l = Region { x: f.x, y: f.y, w: (u.0 - f.x) as i32, h: f.h };
    let r = Region { x: u.2 as i32, y: f.y, w: (fx1 - u.2) as i32, h: f.h };
    let s0 = if u.1 > f.y {
        seq![t]
    } else {
        Seq::empty()
    };
    let s1 = if u.3 < fy1 {
        s0.push(b)
    } else {
        s0
    };
    let s2 = if u.0 > f.x {
        s1.push(l)
    } else {
        s1
    };
    let s3 = if u.2 < fx1 {
        s2.push(r)
    } else {
        s2
    };
    assert(s3 == slices(f, u));
    let good = |g: Region| g.nonempty() && within(g.frame(), f.frame()) && apart(g.frame(), u);
    assert(forall|m: int| 0 <= m < s0.len() ==> good(#[trigger] s0[m]));
    assert(forall|m: int| 0 <= m < s1.len() ==> good(#[trigger] s1[m])) by {
        assert forall|m: int| 0 <= m < s1.len() implies good(#[trigger] s1[m]) by {
            if m < s0.len() {
                assert(s1[m] == s0[m]);
            }
        }
    }
    assert(forall|m: int| 0 <= m < s2.len() ==> good(#[trigger] s2[m])) by {
        assert forall|m: int| 0 <= m < s2.len() implies good(#[trigger] s2[m]) by {
            if m < s1.len() {
                assert(s2[m] == s1[m]);
            }
        }
    }
    assert forall|m: int| 0 <= m < s3.len() implies good(#[trigger] s3[m]) by {
        if m < s2.len() {
            assert(s3[m] == s2[m]);
        }
    }
    assert forall|px: int, py: int|
        #[trigger] covers(f, px, py) && !in_frame(u, px, py) implies free_covers(s3, px, py) by {
        if py < u.1 {
            assert(s3[0] == t);
        } else if py >= u.3 {
            assert(s3[s0.len() as int] == b);
        } else if px < u.0 {
            assert(s3[s1.len() as int] == l);
        } else {
            assert(s3[s2.len() as int] == r);
        }
    }
}

/// Point `(px, py)` lies in area `u`.
pub open spec fn in_frame(u: Frame, px: int, py: int) -> bool {
    u.0 <= px < u.2 && u.1 <= py < u.3
}

/// A point of a free region that `u` does not touch stays covered.
proof fn lemma_untouched_covers(free: Seq<Region>, u: Frame)
    ensures
        forall|k: int, px: int, py: int|
            0 <= k < free.len() && apart(free[k].frame(), u) && #[trigger] covers(free[k], px, py)
                ==> free_covers(untouched(free, u), px, py),
    decreases free.len(),
{
    if free.len() > 0 {
        let q = free.drop_last();
        lemma_untouched_covers(q, u);
        let out = untouched(free, u);
        let prev = untouched(q, u);
        assert forall|k: int, px: int, py: int|
            0 <= k < free.len() && apart(free[k].frame(), u) && #[trigger] covers(free[k], px, py)
                implies free_covers(out, px, py) by {
            if k < q.len() {
                assert(free[k] == q[k]);
                assert(covers(q[k], px, py));
                let a = choose|a: int| 0 <= a < prev.len() && covers(#[trigger] prev[a], px, py);
                assert(out[a] == prev[a]);
            } else {
                assert(out[out.len() - 1] == free[k]);
            }
        }
    }
}

/// A point of a free region that `u` touches, but outside `u`, stays covered by the parts.
proof fn lemma_cut_covers(free: Seq<Region>, u: Frame, bw: int, bh: int)
    requires
        0 <= u.0 <= u.2 <= bw <= i32::MAX,
        0 <= u.1 <= u.3 <= bh <= i32::MAX,
        forall|i: int|
            #![trigger free[i]]
            0 <= i < free.len() ==> free[i].nonempty() && within(free[i].frame(), bin_frame(bw, bh)),
    ensures
        forall|k: int, px: int, py: int|
            0 <= k < free.len() && !apart(free[k].frame(), u) && #[trigger] covers(free[k], px, py)
                && !in_frame(u, px, py) ==> free_covers(cut_parts(free, u), px, py),
    decreases free.len(),
{
    if free.len() > 0 {
        let q = free.drop_last();
        assert forall|i: int| #![trigger q[i]] 0 <= i < q.len() implies q[i].nonempty() && within(
            q[i].frame(),
            bin_frame(bw, bh),
        ) by {
            assert(q[i] == free[i]);
        }
        lemma_cut_covers(q, u, bw, bh);
        let out = cut_parts(free, u);
        let prev = cut_parts(q, u);
        let f = free.last();
        assert(f.nonempty() && within(f.frame(), bin_frame(bw, bh)));
        assert forall|k: int, px: int, py: int|
            0 <= k < free.len() && !apart(free[k].frame(), u) && #[trigger] covers(free[k], px, py)
                && !in_frame(u, px, py) implies free_covers(out, px, py) by {
            if k < q.len() {
                assert(free[k] == q[k]);
                assert(covers(q[k], px, py));
                let a = choose|a: int| 0 <= a < prev.len() && covers(#[trigger] prev[a], px, py);
                assert(out[a] == prev[a]);
            } else {
                lemma_slices(f, u);
                assert(covers(f, px, py));
                let sl = slices(f, u);
                let m = choose|m: int| 0 <= m < sl.len() && covers(#[trigger] sl[m], px, py);
                assert(out[prev.len() + m] == sl[m]);
            }
        }
    }
}

/// A region within a bigger or earlier equal one is dropped by pruning; following such
/// regions leads to one that is kept.
proof fn lemma_reach_kept(free: Seq<Region>, k: int)
    requires
        0 <= k < free.len(),
        forall|i: int| #![trigger free[i]] 0 <= i < free.len() ==> free[i].nonempty(),
    ensures
        exists|j: int|
            0 <= j < free.len() && !redundant(free, j) && within(free[k].frame(), #[trigger] free[j].frame()),
    decreases 0x4000_0000_0000_0000 - free[k].w * free[k].h, k,
{
    let f = free[k];
    assert(0 < f.w * f.h <= 0x4000_0000_0000_0000) by (nonlinear_arith)
        requires
            0 < f.w <= 0x8000_0000,
            0 < f.h <= 0x8000_0000,
    ;
    if redundant(free, k) {
        let j = choose|j: int|
            0 <= j < free.len() && j != k && within(free[k].frame(), #[trigger] free[j].frame()) && (
            free[j] != free[k] || j < k);
        let g = free[j];
        assert(g.nonempty());
        if g != f {
            assert(f.w < g.w || f.h < g.h);
            assert(f.w * f.h < g.w * g.h) by (nonlinear_arith)
                requires
                    0 < f.w <= g.w,
                    0 < f.h <= g.h,
                    f.w < g.w || f.h < g.h,
            ;
        }
        assert(g.w * g.h <= 0x4000_0000_0000_0000) by (nonlinear_arith)
            requires
                0 < g.w <= 0x8000_0000,
                0 < g.h <= 0x8000_0000,
        ;
        lemma_reach_kept(free, j);
        let j2 = choose|j2: int|
            0 <= j2 < free.len() && !redundant(free, j2) && within(g.frame(), #[trigger] free[j2].frame());
        assert(within(f.frame(), free[j2].frame()));
    } else {
        assert(within(f.frame(), free[k].frame()));
    }
}

/// Every region that is not redundant is kept by pruning.
proof fn lemma_kept_in_pruned(free: Seq<Region>, n: int)
    requires
        0 <= n <= free.len(),
    ensures
        forall|j: int|
            0 <= j < n && !redundant(free, j) ==> exists|a: int|
                0 <= a < pruned_upto(free, n).len() && pruned_upto(free, n)[a] == #[trigger] free[j],
    decreases n,
{
    if n > 0 {
        lemma_kept_in_pruned(free, n - 1);
        let prev = pruned_upto(free, n - 1);
        let out = pruned_upto(free, n);
        assert forall|j: int| 0 <= j < n && !redundant(free, j) implies exists|a: int|
            0 <= a < out.len() && out[a] == #[trigger] free[j] by {
            if j < n - 1 {
                let a = choose|a: int| 0 <= a < prev.len() && prev[a] == #[trigger] free[j];
                assert(out[a] == prev[a]);
            } else {
                assert(out[out.len() - 1] == free[j]);
            }
        }
    }
}

/// Pruning keeps every point that the free regions cover.
pub proof fn lemma_pruned_covers(free: Seq<Region>)
    requires
        forall|i: int| #![trigger free[i]] 0 <= i < free.len() ==> free[i].nonempty(),
    ensures
        forall|px: int, py: int| free_covers(free, px, py) ==> #[trigger] free_covers(pruned(free), px, py),
{
    lemma_kept_in_pruned(free, free.len() as int);
    assert forall|px: int, py: int| free_covers(free, px, py) implies #[trigger] free_covers(
        pruned(free),
        px,
        py,
    ) by {
        let k = choose|k: int| 0 <= k < free.len() && covers(#[trigger] free[k], px, py);
        lemma_reach_kept(free, k);
        let j = choose|j: int|
            0 <= j < free.len() && !redundant(free, j) && within(free[k].frame(), #[trigger] free[j].frame());
        let a = choose|a: int| 0 <= a < pruned(free).len() && pruned(free)[a] == #[trigger] free[j];
        assert(covers(pruned(free)[a], px, py));
    }
}

/// A region produced from the free regions `free` by placing `u`: not empty, within the
/// bin, within one of `free`, and apart from `u`.
pub open spec fn derived(g: Region, free: Seq<Region>, u: Frame, bw: int, bh: int) -> bool {
    &&& g.nonempty()
    &&& within(g.frame(), bin_frame(bw, bh))
    &&& apart(g.frame(), u)
    &&& exists|m: int| 0 <= m < free.len() && within(g.frame(), #[trigger] free[m].frame())
}

/// Appends the parts of `f` that `u` leaves free.
fn push_slices(out: &mut Vec<Region>, f: Region, u: (i32, i32, i32, i32))
    requires
        !apart(f.frame(), (u.0 as int, u.1 as int, u.2 as int, u.3 as int)),
        f.nonempty(),
        0 <= f.x,
        0 <= f.y,
        f.x + f.w <= i32::MAX,
        f.y + f.h <= i32::MAX,
        0 <= u.0 <= u.2,
        0 <= u.1 <= u.3,
    ensures
        final(out)@ == old(out)@ + slices(f, (u.0 as int, u.1 as int, u.2 as int, u.3 as int)),
{
    let ghost s = old(out)@;
    let fx1 = f.x + f.w;
    let fy1 = f.y + f.h;
    if u.1 > f.y {
        out.push(Region { x: f.x, y: f.y, w: f.w, h: u.1 - f.y });
    }
    if u.3 < fy1 {
        out.push(Region { x: f.x, y: u.3, w: f.w, h: fy1 - u.3 });
    }
    if u.0 > f.x {
        out.push(Region { x: f.x, y: f.y, w: u.0 - f.x, h: f.h });
    }
    if u.2 < fx1 {
        out.push(Region { x: u.2, y: f.y, w: fx1 - u.2, h: f.h });
    }
    proof {
        assert(out@ =~= s + slices(f, (u.0 as int, u.1 as int, u.2 as int, u.3 as int)));
    }
}

/// The free regions after placing `u`: `untouched` then `cut_parts`.
fn cut_free(free: &Vec<Region>, u: (i32, i32, i32, i32), bw: i32, bh: i32) -> (r: Vec<Region>)
    requires
        0 <= u.0 <= u.2 <= bw,
        0 <= u.1 <= u.3 <= bh,
        forall|i: int|
            #![trigger free@[i]]
            0 <= i < free@.len() ==> free@[i].nonempty() && within(free@[i].frame(), bin_frame(bw as int, bh as int)),
    ensures
        ({
            let uf = (u.0 as int, u.1 as int, u.2 as int, u.3 as int);
            &&& r@ == untouched(free@, uf) + cut_parts(free@, uf)
            &&& forall|a: int| #![trigger r@[a]] 0 <= a < r@.len() ==> derived(r@[a], free@, uf, bw as int, bh as int)
        }),
{
    let ghost uf = (u.0 as int, u.1 as int, u.2 as int, u.3 as int);
    let mut kept: Vec<Region> = Vec::new();
    let mut parts: Vec<Region> = Vec::new();
    let mut i: usize = 0;
    while i < free.len()
        invariant
            i <= free@.len(),
            uf == (u.0 as int, u.1 as int, u.2 as int, u.3 as int),
            0 <= u.0 <= u.2 <= bw,
            0 <= u.1 <= u.3 <= bh,
            forall|i: int|
                #![trigger free@[i]]
                0 <= i < free@.len() ==> free@[i].nonempty() && within(free@[i].frame(), bin_frame(bw as int, bh as int)),
            kept@ == untouched(free@.subrange(0, i as int), uf),
            parts@ == cut_parts(free@.subrange(0, i as int), uf),
            forall|a: int| #![trigger kept@[a]] 0 <= a < kept@.len() ==> derived(kept@[a], free@, uf, bw as int, bh as int),
            forall|a: int| #![trigger parts@[a]] 0 <= a < parts@.len() ==> derived(parts@[a], free@, uf, bw as int, bh as int),
        decreases free@.len() - i,
    {
        let f = free[i];
        proof {
            assert(free@.subrange(0, i + 1).drop_last() =~= free@.subrange(0, i as int));
            assert(free@.subrange(0, i + 1).last() == f);
            assert(f.nonempty() && within(f.frame(), bin_frame(bw as int, bh as int)));
        }
        let is_apart = u.2 <= f.x || f.x + f.w <= u.0 || u.3 <= f.y || f.y + f.h <= u.1;
        if is_apart {
            let ghost prev = kept@;
            kept.push(f);
            proof {
                assert forall|a: int| #![trigger kept@[a]] 0 <= a < kept@.len() implies derived(kept@[a], free@, uf, bw as int, bh as int) by {
                    if a < prev.len() {
                        assert(kept@[a] == prev[a]);
                    } else {
                        assert(kept@[a] == free@[i as int]);
                    }
                }
            }
        } else {
            let ghost prev = parts@;
            push_slices(&mut parts, f, u);
            proof {
                lemma_slices(f, uf);
                let sl = slices(f, uf);
                assert forall|a: int| #![trigger parts@[a]] 0 <= a < parts@.len() implies derived(parts@[a], free@, uf, bw as int, bh as int) by {
                    if a < prev.len() {
                        assert(parts@[a] == prev[a]);
                    } else {
                        assert(parts@[a] == sl[a - prev.len()]);
                        assert(within(sl[a - prev.len()].frame(), free@[i as int].frame()));
                    }
                }
            }
        }
        i = i + 1;
    }
    proof {
        assert(free@.subrange(0, i as int) =~= free@);
    }
    let ghost k = kept@;
    let ghost p = parts@;
    kept.append(&mut parts);
    proof {
        assert forall|a: int| #![trigger kept@[a]] 0 <= a < kept@.len() implies derived(kept@[a], free@, uf, bw as int, bh as int) by {
            if a < k.len() {
                assert(kept@[a] == k[a]);
            } else {
                assert(kept@[a] == p[a - k.len()]);
            }
        }
    }
    kept
}

/// Whether `g` lies within `f`.
fn region_within(g: Region, f: Region) -> (r: bool)
    ensures
        r == within(g.frame(), f.frame()),
{
    f.x <= g.x && f.y <= g.y && g.x as i64 + g.w as i64 <= f.x as i64 + f.w as i64 && g.y as i64
        + g.h as i64 <= f.y as i64 + f.h as i64
}

/// Computes `redundant(free@, i)`.
fn is_redundant(free: &Vec<Region>, i: usize) -> (r: bool)
    requires
        i < free@.len(),
    ensures
        r == redundant(free@, i as int),
{
    let g = free[i];
    let mut j: usize = 0;
    while j < free.len()
        invariant
            i < free@.len(),
            g == free@[i as int],
            j <= free@.len(),
            forall|k: int|
                0 <= k < j ==> !(k != i && within(g.frame(), #[trigger] free@[k].frame()) && (free@[k]
                    != g || k < i)),
        decreases free@.len() - j,
    {
        let f = free[j];
        if j != i && region_within(g, f) && (f != g || j < i) {
            return true;
        }
        j = j + 1;
    }
    false
}

/// Drops the regions that lie within another, keeping the first of equal ones.
fn prune(free: &Vec<Region>) -> (r: Vec<Region>)
    ensures
        r@ == pruned(free@),
        forall|a: int|
            #![trigger r@[a]]
            0 <= a < r@.len() ==> exists|m: int| 0 <= m < free@.len() && r@[a] == #[trigger] free@[m],
{
    let mut out: Vec<Region> = Vec::new();
    let mut i: usize = 0;
    while i < free.len()
        invariant
            i <= free@.len(),
            out@ == pruned_upto(free@, i as int),
            forall|a: int|
                #![trigger out@[a]]
                0 <= a < out@.len() ==> exists|m: int| 0 <= m < free@.len() && out@[a] == #[trigger] free@[m],
        decreases free@.len() - i,
    {
        if !is_redundant(free, i) {
            let ghost prev = out@;
            out.push(free[i]);
            proof {
                assert forall|a: int| #![trigger out@[a]] 0 <= a < out@.len() implies exists|m: int| 0 <= m < free@.len() && out@[a] == #[trigger] free@[m] by {
                    if a < prev.len() {
                        assert(out@[a] == prev[a]);
                    } else {
                        assert(out@[a] == free@[i as int]);
                    }
                }
            }
        }
        i = i + 1;
    }
    out
}

/// Placing `rect` in free region `k`, with free regions derived from the old ones, keeps
/// the bin's invariant.
proof fn lemma_place(
    free: Seq<Region>,
    placed: Seq<Rectangle>,
    k: int,
    rect: Rectangle,
    nf: Seq<Region>,
    w: int,
    h: int,
)
    requires
        placed_ok(placed, w, h),
        free_ok(free, placed, w, h),
        0 <= k < free.len(),
        within(padded_frame(rect), free[k].frame()),
        rect.spec_dim().nonneg(),
        rect.spec_dim().spec_width_total() > 0,
        rect.spec_dim().spec_height_total() > 0,
        forall|a: int| #![trigger nf[a]] 0 <= a < nf.len() ==> derived(nf[a], free, padded_frame(rect), w, h),
    ensures
        placed_ok(placed.push(rect), w, h),
        free_ok(nf, placed.push(rect), w, h),
{
    let np = placed.push(rect);
    let f = free[k];
    assert(within(f.frame(), bin_frame(w, h)));
    assert forall|i: int, j: int|
        #![trigger np[i], np[j]]
        0 <= i < np.len() && 0 <= j < np.len() && i != j implies apart(
            padded_frame(np[i]),
            padded_frame(np[j]),
        ) by {
        if i < placed.len() && j < placed.len() {
            assert(np[i] == placed[i] && np[j] == placed[j]);
        } else if i < placed.len() {
            assert(np[i] == placed[i]);
            assert(apart(f.frame(), padded_frame(placed[i])));
        } else {
            assert(np[j] == placed[j]);
            assert(apart(f.frame(), padded_frame(placed[j])));
        }
    }
    assert forall|i: int| #![trigger np[i]] 0 <= i < np.len() implies {
        &&& within(padded_frame(np[i]), bin_frame(w, h))
        &&& np[i].spec_dim().nonneg()
        &&& np[i].spec_dim().spec_width_total() > 0
        &&& np[i].spec_dim().spec_height_total() > 0
    } by {
        if i < placed.len() {
            assert(np[i] == placed[i]);
        }
    }
    assert forall|i: int, j: int|
        #![trigger nf[i], np[j]]
        0 <= i < nf.len() && 0 <= j < np.len() implies apart(
            nf[i].frame(),
            padded_frame(np[j]),
        ) by {
        assert(derived(nf[i], free, padded_frame(rect), w, h));
        if j < placed.len() {
            assert(np[j] == placed[j]);
            let m = choose|m: int| 0 <= m < free.len() && within(nf[i].frame(), #[trigger] free[m].frame());
            assert(apart(free[m].frame(), padded_frame(placed[j])));
        }
    }
}

impl MaxRectsBin {
    pub closed spec fn spec_width(&self) -> i32 {
        self.width
    }

    pub closed spec fn spec_height(&self) -> i32 {
        self.height
    }

    /// The free regions, in order.
    pub closed spec fn free_regions(&self) -> Seq<Region> {
        self.free@
    }

    /// The placed rectangles, in the order of insertion.
    pub closed spec fn placed_rects(&self) -> Seq<Rectangle> {
        self.placed@
    }

    /// The bin's invariant: placed rectangles lie within the bin without overlapping; the
    /// free regions lie within the bin, apart from what is placed; and free regions and
    /// placed padded areas together cover the whole bin. After an insertion or a shrink no
    /// free region lies within another (`minimal`).
    pub open spec fn wf(&self) -> bool {
        &&& self.spec_width() >= 0
        &&& self.spec_height() >= 0
        &&& placed_ok(self.placed_rects(), self.spec_width() as int, self.spec_height() as int)
        &&& free_ok(
            self.free_regions(),
            self.placed_rects(),
            self.spec_width() as int,
            self.spec_height() as int,
        )
        &&& covered(
            self.free_regions(),
            self.placed_rects(),
            self.spec_width() as int,
            self.spec_height() as int,
        )
    }

    /// Creates an empty bin; negative sizes become 0.
    pub fn new(width: i32, height: i32) -> (r: Self)
        ensures
            r.wf(),
            r.spec_width() == if width < 0 {
                0
            } else {
                width
            },
            r.spec_height() == if height < 0 {
                0
            } else {
                height
            },
            r.placed_rects() == Seq::<Rectangle>::empty(),
            r.free_regions() == initial_free(r.spec_width() as int, r.spec_height() as int),
    {
        Self::with_capacity(width, height, 0)
    }

    /// Creates an empty bin with room reserved for `capacity` rectangles; negative sizes
    /// become 0.
    pub fn with_capacity(width: i32, height: i32, capacity: usize) -> (r: Self)
        ensures
            r.wf(),
            r.spec_width() == if width < 0 {
                0
            } else {
                width
            },
            r.spec_height() == if height < 0 {
                0
            } else {
                height
            },
            r.placed_rects() == Seq::<Rectangle>::empty(),
            r.free_regions() == initial_free(r.spec_width() as int, r.spec_height() as int),
    {
        let w = clamp_len(width);
        let h = clamp_len(height);
        let mut free: Vec<Region> = Vec::new();
        if w > 0 && h > 0 {
            free.push(Region { x: 0, y: 0, w, h });
        }
        let placed: Vec<Rectangle> = Vec::with_capacity(capacity);
        let r = MaxRectsBin { width: w, height: h, free, placed };
        proof {
            assert(r.free_regions() =~= initial_free(w as int, h as int));
            assert forall|px: int, py: int|
                0 <= px < w && 0 <= py < h implies #[trigger] point_covered(
                    r.free_regions(),
                    r.placed_rects(),
                    px,
                    py,
                ) by {
                assert(covers(r.free_regions()[0], px, py));
            }
        }
        r
    }

    /// Removes every placed rectangle; the bin keeps its size.
    pub fn clear(&mut self)
        requires
            old(self).wf(),
        ensures
            final(self).wf(),
            final(self).spec_width() == old(self).spec_width(),
            final(self).spec_height() == old(self).spec_height(),
            final(self).placed_rects() == Seq::<Rectangle>::empty(),
            final(self).free_regions() == initial_free(
                old(self).spec_width() as int,
                old(self).spec_height() as int,
            ),
    {
        *self = Self::new(self.width, self.height);
    }

    pub fn width(&self) -> (r: i32)
        ensures
            r == self.spec_width(),
    {
        self.width
    }

    pub fn height(&self) -> (r: i32)
        ensures
            r == self.spec_height(),
    {
        self.height
    }

    /// The number of placed rectangles.
    pub fn len(&self) -> (r: usize)
        ensures
            r == self.placed_rects().len(),
    {
        self.placed.len()
    }

    pub fn is_empty(&self) -> (r: bool)
        ensures
            r == (self.placed_rects().len() == 0),
    {
        self.placed.len() == 0
    }

    /// The placed rectangles, in the order of insertion.
    pub fn as_slice(&self) -> (r: &[Rectangle])
        ensures
            r@ == self.placed_rects(),
    {
        self.placed.as_slice()
    }

    /// The placed rectangles, in the order of insertion.
    pub fn iter(&self) -> (r: std::slice::Iter<'_, Rectangle>)
        ensures
            vstd::std_specs::slice::into_iter_elts(r) == self.placed_rects(),
    {
        let s = self.as_slice();
        proof {
            vstd::std_specs::slice::axiom_spec_slice_iter(s);
        }
        s.iter()
    }

    /// Draws the placed rectangles on a character grid of the bin's size, as `draw_grid` does.
    pub fn visualize(&self) -> (r: String)
        ensures
            r@ == grid_rows(self.placed_rects(), len0(self.spec_width()), len0(self.spec_height())),
    {
        draw_grid(self.placed.as_slice(), self.width, self.height)
    }

    /// The free regions, in order.
    pub fn free_slice(&self) -> (r: &[Region])
        ensures
            r@ == self.free_regions(),
    {
        self.free.as_slice()
    }

    /// The area that placed rectangles cover, padding not counted.
    pub fn used_area(&self) -> (r: i128)
        ensures
            r == content_area(self.placed_rects()),
    {
        used_area_of(&self.placed)
    }

    /// The first placed rectangle with identifier `id`.
    pub fn find_by_id(&self, id: isize) -> (r: Option<&Rectangle>)
        ensures
            match r {
                Some(rect) => exists|i: int|
                    #[trigger] first_with_id(self.placed_rects(), id, i) && *rect
                        == self.placed_rects()[i],
                None => forall|i: int|
                    0 <= i < self.placed_rects().len() ==> (
                    #[trigger] self.placed_rects()[i]).spec_id() != id,
            },
    {
        match find_first(&self.placed, id) {
            Some(i) => {
                proof {
                    assert(first_with_id(self.placed_rects(), id, i as int));
                }
                Some(&self.placed[i])
            },
            None => None,
        }
    }

    /// Places `dim` at the corner of the free region that `rule` scores best, then cuts
    /// every free region it overlaps into the parts left free and drops regions held within
    /// others. Returns `None`, and changes nothing, where `dim` with its padding is empty or
    /// fits no free region.
    pub fn insert(&mut self, dim: &Dimension, rule: Heuristic) -> (r: Option<Rectangle>)
        requires
            old(self).wf(),
        ensures
            final(self).wf(),
            r is Some ==> minimal(final(self).free_regions()),
            final(self).spec_width() == old(self).spec_width(),
            final(self).spec_height() == old(self).spec_height(),
            (final(self).free_regions(), final(self).placed_rects(), r) == insert_outcome(
                old(self).free_regions(),
                old(self).placed_rects(),
                *dim,
                rule,
                old(self).spec_width() as int,
                old(self).spec_height() as int,
            ),
    {
        let w = dim.width_total();
        let h = dim.height_total();
        if w == 0 || h == 0 {
            return None;
        }
        match self.find_best(w, h, rule) {
            None => None,
            Some(b) => {
                proof {
                    lemma_best_fit(
                        self.free@,
                        self.free@.len() as int,
                        w as int,
                        h as int,
                        rule,
                        self.placed@,
                        self.width as int,
                        self.height as int,
                    );
                }
                let r = self.place(b.0, *dim);
                proof {
                    let f = old(self).free_regions()[b.0 as int];
                    let u = (f.x as int, f.y as int, f.x + w, f.y + h);
                    lemma_pruned_minimal(
                        untouched(old(self).free_regions(), u) + cut_parts(old(self).free_regions(), u),
                    );
                }
                Some(r)
            },
        }
    }

    /// The best candidate for a `w` by `h` object, as `best_fit` says.
    fn find_best(&self, w: i64, h: i64, rule: Heuristic) -> (r: Option<(usize, i64, i64)>)
        requires
            self.wf(),
            w > 0,
            h > 0,
        ensures
            choice_view(r) == best_fit(
                self.free@,
                self.free@.len() as int,
                w as int,
                h as int,
                rule,
                self.placed@,
                self.width as int,
                self.height as int,
            ),
    {
        let mut best: Option<(usize, i64, i64)> = None;
        let mut i: usize = 0;
        while i < self.free.len()
            invariant
                self.wf(),
                i <= self.free@.len(),
                w > 0,
                h > 0,
                choice_view(best) == best_fit(
                    self.free@,
                    i as int,
                    w as int,
                    h as int,
                    rule,
                    self.placed@,
                    self.width as int,
                    self.height as int,
                ),
            decreases self.free@.len() - i,
        {
            let f = self.free[i];
            proof {
                assert(within(f.frame(), bin_frame(self.width as int, self.height as int)));
            }
            if w <= f.w as i64 && h <= f.h as i64 {
                let k = key_of(rule, f, w, h, &self.placed, self.width, self.height);
                match best {
                    None => {
                        best = Some((i, k.0, k.1));
                    },
                    Some(b) => {
                        if k.0 < b.1 || (k.0 == b.1 && k.1 < b.2) {
                            best = Some((i, k.0, k.1));
                        }
                    },
                }
            }
            i = i + 1;
        }
        best
    }

    /// Places `d` at the corner of free region `k` and recomputes the free regions.
    fn place(&mut self, k: usize, d: Dimension) -> (r: Rectangle)
        requires
            old(self).wf(),
            k < old(self).free_regions().len(),
            d.spec_width_total() > 0,
            d.spec_height_total() > 0,
            old(self).free_regions()[k as int].fits(d.spec_width_total(), d.spec_height_total()),
        ensures
            final(self).wf(),
            final(self).spec_width() == old(self).spec_width(),
            final(self).spec_height() == old(self).spec_height(),
            ({
                let f = old(self).free_regions()[k as int];
                let u = (f.x as int, f.y as int, f.x + d.spec_width_total(), f.y + d.spec_height_total());
                &&& r == Rectangle::spec_new(
                    (f.x + d.spec_padding()) as i32,
                    (f.y + d.spec_padding()) as i32,
                    d,
                )
                &&& final(self).free_regions() == pruned(
                    untouched(old(self).free_regions(), u) + cut_parts(old(self).free_regions(), u),
                )
                &&& final(self).placed_rects() == old(self).placed_rects().push(r)
            }),
    {
        let f = self.free[k];
        let p = d.padding();
        // reading the sizes establishes that they are not negative
        let _w = d.width();
        let _h = d.height();
        let pw = d.width_total();
        let ph = d.height_total();
        proof {
            assert(f == self.free@[k as int]);
            assert(f.nonempty() && within(f.frame(), bin_frame(self.width as int, self.height as int)));
        }
        let rect = Rectangle::new(f.x + p, f.y + p, d);
        let u = (f.x, f.y, f.x + pw as i32, f.y + ph as i32);
        let ghost uf = (u.0 as int, u.1 as int, u.2 as int, u.3 as int);
        proof {
            assert forall|i: int|
                #![trigger self.free@[i]]
                0 <= i < self.free@.len() implies self.free@[i].nonempty() && within(self.free@[i].frame(), bin_frame(self.width as int, self.height as int)) by {
            }
        }
        let cut = cut_free(&self.free, u, self.width, self.height);
        let nf = prune(&cut);
        let ghost old_free = self.free@;
        let ghost old_placed = self.placed@;
        proof {
            assert(padded_frame(rect) == uf);
            assert forall|a: int| #![trigger nf@[a]] 0 <= a < nf@.len() implies derived(nf@[a], old_free, uf, self.width as int, self.height as int) by {
                let m = choose|m: int| 0 <= m < cut@.len() && nf@[a] == #[trigger] cut@[m];
            }
            lemma_place(old_free, old_placed, k as int, rect, nf@, self.width as int, self.height as int);
            lemma_untouched_covers(old_free, uf);
            lemma_cut_covers(old_free, uf, self.width as int, self.height as int);
            lemma_pruned_covers(cut@);
            let np = old_placed.push(rect);
            let ut = untouched(old_free, uf);
            let cp = cut_parts(old_free, uf);
            assert forall|px: int, py: int|
                0 <= px < self.width && 0 <= py < self.height implies #[trigger] point_covered(
                    nf@,
                    np,
                    px,
                    py,
                ) by {
                assert(point_covered(old_free, old_placed, px, py));
                if placed_covers(old_placed, px, py) {
                    let q = choose|q: int| 0 <= q < old_placed.len() && in_padded(#[trigger] old_placed[q], px, py);
                    assert(np[q] == old_placed[q]);
                } else if in_frame(uf, px, py) {
                    assert(np[old_placed.len() as int] == rect);
                    assert(in_padded(rect, px, py));
                } else {
                    let kk = choose|kk: int| 0 <= kk < old_free.len() && covers(#[trigger] old_free[kk], px, py);
                    if apart(old_free[kk].frame(), uf) {
                        assert(free_covers(ut, px, py));
                        let a = choose|a: int| 0 <= a < ut.len() && covers(#[trigger] ut[a], px, py);
                        assert(cut@[a] == ut[a]);
                    } else {
                        assert(free_covers(cp, px, py));
                        let a = choose|a: int| 0 <= a < cp.len() && covers(#[trigger] cp[a], px, py);
                        assert(cut@[ut.len() + a] == cp[a]);
                    }
                    assert(free_covers(cut@, px, py));
                }
            }
        }
        self.free = nf;
        self.placed.push(rect);
        rect
    }

    /// Inserts each of `dims` in turn as `insert` does; returns the rectangles placed, in
    /// order, and the objects that did not fit, in order.
    pub fn insert_list(&mut self, dims: &[Dimension], rule: Heuristic) -> (r: (
        Vec<Rectangle>,
        Vec<Dimension>,
    ))
        requires
            old(self).wf(),
        ensures
            final(self).wf(),
            final(self).spec_width() == old(self).spec_width(),
            final(self).spec_height() == old(self).spec_height(),
            r.0@.len() + r.1@.len() == dims@.len(),
            (final(self).free_regions(), final(self).placed_rects(), r.0@, r.1@)
                == insert_list_outcome(
                old(self).free_regions(),
                old(self).placed_rects(),
                dims@,
                rule,
                old(self).spec_width() as int,
                old(self).spec_height() as int,
            ),
    {
        let mut inserted: Vec<Rectangle> = Vec::new();
        let mut rejected: Vec<Dimension> = Vec::new();
        let mut i: usize = 0;
        while i < dims.len()
            invariant
                i <= dims@.len(),
                self.wf(),
                self.spec_width() == old(self).spec_width(),
                self.spec_height() == old(self).spec_height(),
                inserted@.len() + rejected@.len() == i,
                (self.free_regions(), self.placed_rects(), inserted@, rejected@)
                    == insert_list_outcome(
                    old(self).free_regions(),
                    old(self).placed_rects(),
                    dims@.subrange(0, i as int),
                    rule,
                    old(self).spec_width() as int,
                    old(self).spec_height() as int,
                ),
            decreases dims@.len() - i,
        {
            let d = &dims[i];
            proof {
                assert(dims@.subrange(0, i + 1).drop_last() =~= dims@.subrange(0, i as int));
                assert(dims@.subrange(0, i + 1).last() == dims@[i as int]);
            }
            match self.insert(d, rule) {
                Some(rect) => inserted.push(rect),
                None => rejected.push(*d),
            }
            i = i + 1;
        }
        proof {
            assert(dims@.subrange(0, i as int) =~= dims@);
        }
        (inserted, rejected)
    }

    /// Widens the bin by `dw` and heightens it by `dh`, each bound by `i32::MAX` (negative
    /// values change nothing), and adds the new space as free regions. Placed rectangles
    /// stay where they are.
    pub fn grow(&mut self, dw: i32, dh: i32)
        requires
            old(self).wf(),
        ensures
            final(self).wf(),
            final(self).spec_width() == grown_len(old(self).spec_width() as int, dw as int),
            final(self).spec_height() == grown_len(old(self).spec_height() as int, dh as int),
            final(self).spec_width() >= old(self).spec_width(),
            final(self).spec_height() >= old(self).spec_height(),
            final(self).placed_rects() == old(self).placed_rects(),
            final(self).free_regions() == old(self).free_regions() + grow_regions(
                old(self).spec_width() as int,
                old(self).spec_height() as int,
                final(self).spec_width() as int,
                final(self).spec_height() as int,
            ),
    {
        let w = self.width;
        let h = self.height;
        let nw = grow_len(w, dw);
        let nh = grow_len(h, dh);
        let ghost old_free = self.free@;
        let a = Region { x: w, y: 0, w: nw - w, h: nh };
        let b = Region { x: 0, y: h, w: nw, h: nh - h };
        if a.w > 0 && a.h > 0 {
            self.free.push(a);
        }
        if b.w > 0 && b.h > 0 {
            self.free.push(b);
        }
        self.width = nw;
        self.height = nh;
        proof {
            let added = grow_regions(w as int, h as int, nw as int, nh as int);
            assert(self.free@ =~= old_free + added);
            let s1 = keep_nonempty(Seq::empty(), a);
            assert forall|m: int| #![trigger added[m]] 0 <= m < added.len() implies added[m] == a
                || added[m] == b by {
                if s1.len() == 1 && m == 0 {
                    assert(added[m] == s1[0]);
                }
            }
            let nf = self.free@;
            let placed = self.placed@;
            assert forall|i: int| #![trigger placed[i]] 0 <= i < placed.len() implies within(
                padded_frame(placed[i]),
                bin_frame(nw as int, nh as int),
            ) by {
                assert(within(padded_frame(placed[i]), bin_frame(w as int, h as int)));
            }
            assert forall|i: int|
                #![trigger nf[i]]
                0 <= i < nf.len() implies nf[i].nonempty() && within(nf[i].frame(), bin_frame(nw as int, nh as int)) by {
                if i < old_free.len() {
                    assert(nf[i] == old_free[i]);
                } else {
                    assert(nf[i] == added[i - old_free.len()]);
                }
            }
            assert forall|i: int, j: int|
                #![trigger nf[i], placed[j]]
                0 <= i < nf.len() && 0 <= j < placed.len() implies apart(
                    nf[i].frame(),
                    padded_frame(placed[j]),
                ) by {
                assert(within(padded_frame(placed[j]), bin_frame(w as int, h as int)));
                if i < old_free.len() {
                    assert(nf[i] == old_free[i]);
                } else {
                    assert(nf[i] == added[i - old_free.len()]);
                }
            }
            assert forall|px: int, py: int|
                0 <= px < nw && 0 <= py < nh implies #[trigger] point_covered(nf, placed, px, py) by {
                if px < w && py < h {
                    assert(point_covered(old_free, placed, px, py));
                    if free_covers(old_free, px, py) {
                        let k = choose|k: int| 0 <= k < old_free.len() && covers(#[trigger] old_free[k], px, py);
                        assert(nf[k] == old_free[k]);
                    }
                } else if px >= w {
                    assert(covers(a, px, py));
                    assert(nf[old_free.len() as int] == a);
                } else {
                    assert(covers(b, px, py));
                    assert(nf[(old_free.len() + s1.len()) as int] == b);
                }
            }
        }
    }

    /// Reduces the bin to the smallest size, or power of two where `power_of_two`, that
    /// holds every placed rectangle with its padding, never beyond its current size; free
    /// regions are cut to the new size, then those held within others are dropped. A bin
    /// with nothing placed is left as it is.
    pub fn shrink(&mut self, power_of_two: bool)
        requires
            old(self).wf(),
        ensures
            final(self).wf(),
            (final(self).spec_width() as int, final(self).spec_height() as int) == shrunk_size(
                old(self).spec_width() as int,
                old(self).spec_height() as int,
                old(self).placed_rects(),
                power_of_two,
            ),
            final(self).placed_rects() == old(self).placed_rects(),
            final(self).free_regions() == pruned(
                clip_all(
                    old(self).free_regions(),
                    final(self).spec_width() as int,
                    final(self).spec_height() as int,
                ),
            ),
            minimal(final(self).free_regions()),
    {
        let (nw, nh) = shrink_to(&self.placed, self.width, self.height, power_of_two);
        proof {
            assert forall|i: int|
                #![trigger self.free@[i]]
                0 <= i < self.free@.len() implies self.free@[i].nonempty() && self.free@[i].x >= 0
                    && self.free@[i].y >= 0 && self.free@[i].x + self.free@[i].w <= i32::MAX
                    && self.free@[i].y + self.free@[i].h <= i32::MAX by {
                assert(within(self.free@[i].frame(), bin_frame(self.width as int, self.height as int)));
            }
        }
        let clipped = clip_regions(&self.free, nw, nh);
        let free = prune(&clipped);
        proof {
            lemma_pruned_minimal(clipped@);
            let placed = self.placed@;
            assert forall|i: int|
                #![trigger free@[i]]
                0 <= i < free@.len() implies free@[i].nonempty() && within(free@[i].frame(), bin_frame(nw as int, nh as int)) by {
                let c = choose|c: int| 0 <= c < clipped@.len() && free@[i] == #[trigger] clipped@[c];
            }
            assert forall|i: int, j: int|
                #![trigger free@[i], placed[j]]
                0 <= i < free@.len() && 0 <= j < placed.len() implies apart(
                    free@[i].frame(),
                    padded_frame(placed[j]),
                ) by {
                let c = choose|c: int| 0 <= c < clipped@.len() && free@[i] == #[trigger] clipped@[c];
                let m = choose|m: int|
                    0 <= m < self.free@.len() && within(clipped@[c].frame(), #[trigger] self.free@[m].frame());
                assert(apart(self.free@[m].frame(), padded_frame(placed[j])));
            }
        }
        proof {
            let placed = self.placed@;
            lemma_pruned_covers(clipped@);
            assert forall|px: int, py: int|
                0 <= px < nw && 0 <= py < nh implies #[trigger] point_covered(free@, placed, px, py) by {
                assert(point_covered(self.free@, placed, px, py));
                if free_covers(self.free@, px, py) {
                    let m = choose|m: int| 0 <= m < self.free@.len() && covers(#[trigger] self.free@[m], px, py);
                    assert(covers(self.free@[m], px, py));
                    assert(free_covers(clipped@, px, py));
                }
            }
        }
        self.free = free;
        self.width = nw;
        self.height = nh;
    }
}

/// Whatever sequence of operations produced a bin, no two of its placed rectangles
/// intersect.
pub proof fn lemma_placed_disjoint(bin: &MaxRectsBin)
    requires
        bin.wf(),
    ensures
        forall|i: int, j: int|
            #![trigger bin.placed_rects()[i], bin.placed_rects()[j]]
            0 <= i < bin.placed_rects().len() && 0 <= j < bin.placed_rects().len() && i != j
                ==> !bin.placed_rects()[i].spec_intersects(&bin.placed_rects()[j]),
{
    lemma_no_intersection(bin.placed_rects(), bin.spec_width() as int, bin.spec_height() as int);
}

/// Every placed rectangle's padded area lies within the bin.
pub proof fn lemma_placed_within(bin: &MaxRectsBin)
    requires
        bin.wf(),
    ensures
        forall|i: int|
            #![trigger bin.placed_rects()[i]]
            0 <= i < bin.placed_rects().len() ==> {
                let r = bin.placed_rects()[i];
                &&& 0 <= r.left_total()
                &&& 0 <= r.top_total()
                &&& r.right_total() <= bin.spec_width()
                &&& r.bottom_total() <= bin.spec_height()
            },
{
}

/// What an insertion places: the object itself; and an object that is not empty with its
/// padding and fits a fresh bin is placed there.
pub proof fn lemma_insert_places(
    free: Seq<Region>,
    placed: Seq<Rectangle>,
    d: Dimension,
    rule: Heuristic,
    bw: int,
    bh: int,
)
    ensures
        ({
            let o = insert_outcome(free, placed, d, rule, bw, bh);
            match o.2 {
                Some(r) => o.1 == placed.push(r) && r.spec_dim() == d,
                None => o.1 == placed,
            }
        }),
        0 < d.spec_width_total() <= bw <= i32::MAX && 0 < d.spec_height_total() <= bh <= i32::MAX
            ==> insert_outcome(initial_free(bw, bh), placed, d, rule, bw, bh).2 is Some,
{
    let w = d.spec_width_total();
    let h = d.spec_height_total();
    if w != 0 && h != 0 {
        match best_fit(free, free.len() as int, w, h, rule, placed, bw, bh) {
            None => {},
            Some(c) => {
                let f = free[c.0];
                Rectangle::lemma_spec_new(
                    (f.x + d.spec_padding()) as i32,
                    (f.y + d.spec_padding()) as i32,
                    d,
                );
            },
        }
    }
    if 0 < w <= bw <= i32::MAX && 0 < h <= bh <= i32::MAX {
        let fr = initial_free(bw, bh);
        reveal_with_fuel(best_fit, 2);
        assert(fr[0].fits(w, h));
        assert(best_fit(fr, 1, w, h, rule, placed, bw, bh) is Some);
    }
}

/// Inserting a list appends exactly the inserted rectangles to the placed ones.
pub proof fn lemma_insert_list_places(
    free: Seq<Region>,
    placed: Seq<Rectangle>,
    dims: Seq<Dimension>,
    rule: Heuristic,
    bw: int,
    bh: int,
)
    ensures
        ({
            let o = insert_list_outcome(free, placed, dims, rule, bw, bh);
            o.1 == placed + o.2
        }),
    decreases dims.len(),
{
    if dims.len() > 0 {
        lemma_insert_list_places(free, placed, dims.drop_last(), rule, bw, bh);
        let prev = insert_list_outcome(free, placed, dims.drop_last(), rule, bw, bh);
        lemma_insert_places(prev.0, prev.1, dims.last(), rule, bw, bh);
        let o = insert_list_outcome(free, placed, dims, rule, bw, bh);
        assert(o.1 =~= placed + o.2);
    } else {
        assert(placed + Seq::<Rectangle>::empty() =~= placed);
    }
}

/// There is a best candidate among the first `n` free regions exactly where one of them
/// takes the object.
proof fn lemma_best_fit_exists(
    free: Seq<Region>,
    n: int,
    w: int,
    h: int,
    rule: Heuristic,
    placed: Seq<Rectangle>,
    bw: int,
    bh: int,
)
    requires
        0 <= n <= free.len(),
    ensures
        best_fit(free, n, w, h, rule, placed, bw, bh) is Some <==> exists|i: int|
            0 <= i < n && (#[trigger] free[i]).fits(w, h),
    decreases n,
{
    if n > 0 {
        lemma_best_fit_exists(free, n - 1, w, h, rule, placed, bw, bh);
        if best_fit(free, n - 1, w, h, rule, placed, bw, bh) is Some {
            let i = choose|i: int| 0 <= i < n - 1 && (#[trigger] free[i]).fits(w, h);
            assert(0 <= i < n);
        }
    }
}

/// Inserting succeeds exactly where the object is not empty with its padding and fits some
/// free region.
pub proof fn lemma_insert_succeeds(
    free: Seq<Region>,
    placed: Seq<Rectangle>,
    d: Dimension,
    rule: Heuristic,
    bw: int,
    bh: int,
)
    ensures
        ({
            let w = d.spec_width_total();
            let h = d.spec_height_total();
            insert_outcome(free, placed, d, rule, bw, bh).2 is Some <==> (w != 0 && h != 0
                && exists|i: int| 0 <= i < free.len() && (#[trigger] free[i]).fits(w, h))
        }),
{
    lemma_best_fit_exists(
        free,
        free.len() as int,
        d.spec_width_total(),
        d.spec_height_total(),
        rule,
        placed,
        bw,
        bh,
    );
}

/// Free regions and placed rectangles of a bin.
pub type BinState = (Seq<Region>, Seq<Rectangle>);

/// The bins, as free regions and placed rectangles, that inserting each of `nodes` in turn
/// into the last bin gives, where each object that the last bin rejects opens a new bin of
/// `w` by `h`: the closed bins, in order, and the last one.
pub open spec fn next_fit(nodes: Seq<Dimension>, w: int, h: int, rule: Heuristic) -> (
    Seq<BinState>,
    BinState,
)
    decreases nodes.len(),
{
    if nodes.len() == 0 {
        (Seq::empty(), (initial_free(w, h), Seq::empty()))
    } else {
        let prev = next_fit(nodes.drop_last(), w, h, rule);
        let d = nodes.last();
        let o = insert_outcome(prev.1.0, prev.1.1, d, rule, w, h);
        if o.2 is Some {
            (prev.0, (o.0, o.1))
        } else {
            let n = insert_outcome(initial_free(w, h), Seq::empty(), d, rule, w, h);
            (prev.0.push(prev.1), (n.0, n.1))
        }
    }
}

/// All rectangles placed in `bins`, bin by bin.
pub open spec fn all_placed(bins: Seq<MaxRectsBin>) -> Seq<Rectangle>
    decreases bins.len(),
{
    if bins.len() == 0 {
        Seq::empty()
    } else {
        all_placed(bins.drop_last()) + bins.last().placed_rects()
    }
}

/// Packs `nodes` into bins of `bin_width` by `bin_height` (negative sizes become 0) with
/// `rule`.
///
/// Fails, before anything is placed, with the error of the first object that is empty with
/// its padding (`ItemTooSmall`) or larger than a bin (`ItemTooBig`). Otherwise the objects
/// are inserted in order into the last bin; where `allow_new_bins`, an object that the last
/// bin rejects opens a new bin, so that every object is placed; else a single bin is filled
/// as `insert_list` fills it.
pub fn pack_bins(
    nodes: &[Dimension],
    bin_width: i32,
    bin_height: i32,
    rule: Heuristic,
    allow_new_bins: bool,
) -> (r: Result<Vec<MaxRectsBin>, BinError>)
    ensures
        ({
            let w = if bin_width < 0 {
                0
            } else {
                bin_width as int
            };
            let h = if bin_height < 0 {
                0
            } else {
                bin_height as int
            };
            match r {
                Err(e) => first_error(nodes@, w, h) == Some(e),
                Ok(bins) => {
                    &&& first_error(nodes@, w, h) is None
                    &&& bins@.len() >= 1
                    &&& forall|k: int|
                        #![trigger bins@[k]]
                        0 <= k < bins@.len() ==> bins@[k].wf() && bins@[k].spec_width() == w
                            && bins@[k].spec_height() == h
                    &&& !allow_new_bins ==> {
                        let o = insert_list_outcome(initial_free(w, h), Seq::empty(), nodes@, rule, w, h);
                        bins@.len() == 1 && bins@[0].free_regions() == o.0
                            && bins@[0].placed_rects() == o.1
                    }
                    &&& allow_new_bins ==> {
                        let nf = next_fit(nodes@, w, h, rule);
                        &&& bins@.len() == nf.0.len() + 1
                        &&& forall|k: int|
                            #![trigger bins@[k]]
                            0 <= k < nf.0.len() ==> (bins@[k].free_regions(), bins@[k].placed_rects())
                                == nf.0[k]
                        &&& (bins@.last().free_regions(), bins@.last().placed_rects()) == nf.1
                        &&& all_placed(bins@).len() == nodes@.len()
                        &&& forall|k: int|
                            #![trigger all_placed(bins@)[k]]
                            0 <= k < nodes@.len() ==> all_placed(bins@)[k].spec_dim() == nodes@[k]
                    }
                },
            }
        }),
{
    let w = clamp_len(bin_width);
    let h = clamp_len(bin_height);
    if let Some(e) = check_items(nodes, w, h) {
        return Err(e);
    }
    let mut cur = MaxRectsBin::new(w, h);
    if !allow_new_bins {
        cur.insert_list(nodes, rule);
        let mut bins: Vec<MaxRectsBin> = Vec::new();
        bins.push(cur);
        return Ok(bins);
    }
    proof {
        lemma_no_error(nodes@, w as int, h as int);
    }
    let mut done: Vec<MaxRectsBin> = Vec::new();
    let mut i: usize = 0;
    while i < nodes.len()
        invariant
            i <= nodes@.len(),
            w >= 0,
            h >= 0,
            forall|k: int|
                0 <= k < nodes@.len() ==> item_error(#[trigger] nodes@[k], w as int, h as int)
                    is None,
            cur.wf(),
            cur.spec_width() == w,
            cur.spec_height() == h,
            forall|k: int|
                #![trigger done@[k]]
                0 <= k < done@.len() ==> done@[k].wf() && done@[k].spec_width() == w
                    && done@[k].spec_height() == h,
            (all_placed(done@) + cur.placed_rects()).len() == i,
            ({
                let nf = next_fit(nodes@.subrange(0, i as int), w as int, h as int, rule);
                &&& done@.len() == nf.0.len()
                &&& forall|k: int|
                    #![trigger done@[k]]
                    0 <= k < done@.len() ==> (done@[k].free_regions(), done@[k].placed_rects()) == nf.0[k]
                &&& (cur.free_regions(), cur.placed_rects()) == nf.1
            }),
            forall|k: int|
                #![trigger (all_placed(done@) + cur.placed_rects())[k]]
                0 <= k < i ==> (all_placed(done@) + cur.placed_rects())[k].spec_dim() == nodes@[k],
        decreases nodes@.len() - i,
    {
        let d = &nodes[i];
        // reading the sizes establishes that they are not negative
        let _wt = d.width_total();
        let _ht = d.height_total();
        let ghost before = all_placed(done@) + cur.placed_rects();
        let ghost old_cur = cur;
        let ghost old_done_all = done@;
        proof {
            assert(nodes@.subrange(0, i + 1).drop_last() =~= nodes@.subrange(0, i as int));
            assert(nodes@.subrange(0, i + 1).last() == nodes@[i as int]);
        }
        proof {
            lemma_insert_places(cur.free_regions(), cur.placed_rects(), *d, rule, w as int, h as int);
        }
        let placed = cur.insert(d, rule);
        if placed.is_none() {
            let ghost old_done = done@;
            let fresh = MaxRectsBin::new(w, h);
            done.push(cur);
            cur = fresh;
            proof {
                assert(done@.drop_last() =~= old_done);
                assert(all_placed(done@) == all_placed(old_done) + old_cur.placed_rects());
                assert(item_error(nodes@[i as int], w as int, h as int) is None);
                lemma_insert_places(cur.free_regions(), cur.placed_rects(), *d, rule, w as int, h as int);
                assert forall|k: int|
                    #![trigger done@[k]]
                    0 <= k < done@.len() implies done@[k].wf() && done@[k].spec_width() == w
                        && done@[k].spec_height() == h by {
                    if k < old_done.len() {
                        assert(done@[k] == old_done[k]);
                    }
                }
            }
            cur.insert(d, rule);
        }
        proof {
            let nf0 = next_fit(nodes@.subrange(0, i as int), w as int, h as int, rule);
            let nf1 = next_fit(nodes@.subrange(0, i + 1), w as int, h as int, rule);
            if placed.is_none() {
                assert(done@.len() == old_done_all.len() + 1);
                assert((done@.last().free_regions(), done@.last().placed_rects()) == nf0.1);
                assert forall|k: int|
                    #![trigger done@[k]]
                    0 <= k < done@.len() implies (done@[k].free_regions(), done@[k].placed_rects())
                        == nf1.0[k] by {
                    if k < old_done_all.len() {
                        assert(done@[k] == old_done_all[k]);
                    }
                }
            }
            let after = all_placed(done@) + cur.placed_rects();
            assert(after.len() == i + 1);
            assert forall|k: int|
                #![trigger (all_placed(done@) + cur.placed_rects())[k]]
                0 <= k < i + 1 implies (all_placed(done@) + cur.placed_rects())[k].spec_dim()
                    == nodes@[k] by {
                if k < i {
                    assert(after[k] == before[k]);
                } else {
                    assert(after[k] == cur.placed_rects().last());
                }
            }
        }
        i = i + 1;
    }
    let ghost old_done = done@;
    done.push(cur);
    proof {
        assert(nodes@.subrange(0, i as int) =~= nodes@);
        assert(done@.drop_last() =~= old_done);
        assert forall|k: int|
            #![trigger done@[k]]
            0 <= k < done@.len() implies done@[k].wf() && done@[k].spec_width() == w
                && done@[k].spec_height() == h by {
            if k < old_done.len() {
                assert(done@[k] == old_done[k]);
            }
        }
    }
    Ok(done)
}

} // verus!
