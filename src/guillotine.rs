//! The Guillotine algorithm: free space is a list of disjoint regions, and each placement
//! cuts the region it uses into the placed area and at most two new free regions.
//!
//! Of equally scored candidates the one with the lowest free-region index wins, the upright
//! object before the turned one. Placement never merges free regions, so the list may
//! fragment; `merge_free_regions` joins regions that share a whole edge, on request.
use vstd::prelude::*;

use crate::binpack::{check_items, first_error, item_error, lemma_no_error, BinError};
use crate::dimension::Dimension;
use crate::rectangle::Rectangle;
use crate::region::{
    apart, bin_frame, clamp_len, clip_all, clip_regions, content_area, covered, covers, draw_grid,
    find_first, first_with_id, free_covers, free_disjoint, free_ok, grid_rows, grow_len, grown_len,
    in_padded, initial_free, keep_nonempty, lemma_no_intersection, len0, padded_frame,
    placed_covers, placed_ok, point_covered, shrink_to, shrunk_size, used_area_of, within, Region,
};

verus! {

/// How a free region is chosen for an object.
#[derive(Clone, Copy, Debug, PartialEq, Eq, Structural, Hash)]
pub enum RectHeuristic {
    /// Least area left over.
    BestAreaFit,
    /// Smallest shorter leftover side.
    BestShortSideFit,
    /// Smallest longer leftover side.
    BestLongSideFit,
    /// Most area left over.
    WorstAreaFit,
    /// Largest shorter leftover side.
    WorstShortSideFit,
    /// Largest longer leftover side.
    WorstLongSideFit,
}

/// How the space left in a used free region is cut in two.
#[derive(Clone, Copy, Debug, PartialEq, Eq, Structural, Hash)]
pub enum SplitHeuristic {
    /// Cut along the shorter leftover side.
    ShorterLeftoverAxis,
    /// Cut along the longer leftover side.
    LongerLeftoverAxis,
    /// Make the larger of the two new regions as small as possible.
    MinimizeArea,
    /// Make the larger of the two new regions as large as possible.
    MaximizeArea,
    /// Cut along the shorter side of the free region.
    ShorterAxis,
    /// Cut along the longer side of the free region.
    LongerAxis,
}

/// The score of placing a `w` by `h` object into `f`: the lower, the better.
pub open spec fn choice_key(choice: RectHeuristic, f: Region, w: int, h: int) -> int {
    let area = f.w * f.h - w * h;
    let dw = f.w - w;
    let dh = f.h - h;
    let short = if dw <= dh {
        dw
    } else {
        dh
    };
    let long = if dw <= dh {
        dh
    } else {
        dw
    };
    match choice {
        RectHeuristic::BestAreaFit => area,
        RectHeuristic::BestShortSideFit => short,
        RectHeuristic::BestLongSideFit => long,
        RectHeuristic::WorstAreaFit => -area,
        RectHeuristic::WorstShortSideFit => -short,
        RectHeuristic::WorstLongSideFit => -long,
    }
}

/// A placement candidate: index of the free region, whether the object is turned, score.
pub type Candidate = (int, bool, int);

/// `c` where it scores strictly lower than `cur`, else `cur`: earlier candidates win ties.
pub open spec fn better(cur: Option<Candidate>, c: Candidate) -> Option<Candidate> {
    match cur {
        None => Some(c),
        Some(b) => if c.2 < b.2 {
            Some(c)
        } else {
            cur
        },
    }
}

/// The best candidate among the first `n` free regions for a `w` by `h` object; of equal
/// scores the lowest index wins, and the upright object before the turned one.
pub open spec fn best_choice(
    free: Seq<Region>,
    n: int,
    w: int,
    h: int,
    allow_flip: bool,
    choice: RectHeuristic,
) -> Option<Candidate>
    decreases n,
{
    if n <= 0 {
        None
    } else {
        let prev = best_choice(free, n - 1, w, h, allow_flip, choice);
        let f = free[n - 1];
        let a = if f.fits(w, h) {
            better(prev, (n - 1, false, choice_key(choice, f, w, h)))
        } else {
            prev
        };
        if allow_flip && f.fits(h, w) {
            better(a, (n - 1, true, choice_key(choice, f, h, w)))
        } else {
            a
        }
    }
}

/// Whether the leftover of `f` after a `pw` by `ph` placement is cut horizontally.
pub open spec fn split_horizontal(method: SplitHeuristic, f: Region, pw: int, ph: int) -> bool {
    let lw = f.w - pw;
    let lh = f.h - ph;
    match method {
        SplitHeuristic::ShorterLeftoverAxis => lw <= lh,
        SplitHeuristic::LongerLeftoverAxis => lw > lh,
        SplitHeuristic::MinimizeArea => pw * lh > lw * ph,
        SplitHeuristic::MaximizeArea => pw * lh <= lw * ph,
        SplitHeuristic::ShorterAxis => f.w <= f.h,
        SplitHeuristic::LongerAxis => f.w > f.h,
    }
}

/// The leftover below the placed area.
pub open spec fn split_bottom(f: Region, pw: int, ph: int, horizontal: bool) -> Region {
    Region {
        x: f.x,
        y: (f.y + ph) as i32,
        w: if horizontal {
            f.w
        } else {
            pw as i32
        },
        h: (f.h - ph) as i32,
    }
}

/// The leftover right of the placed area.
pub open spec fn split_right(f: Region, pw: int, ph: int, horizontal: bool) -> Region {
    Region {
        x: (f.x + pw) as i32,
        y: f.y,
        w: (f.w - pw) as i32,
        h: if horizontal {
            ph as i32
        } else {
            f.h
        },
    }
}

/// The new free regions, bottom first, of `f` after a `pw` by `ph` placement at its corner.
pub open spec fn split_parts(f: Region, pw: int, ph: int, method: SplitHeuristic) -> Seq<Region> {
    let horizontal = split_horizontal(method, f, pw, ph);
    keep_nonempty(
        keep_nonempty(Seq::empty(), split_bottom(f, pw, ph, horizontal)),
        split_right(f, pw, ph, horizontal),
    )
}

/// `d`, turned where `flipped`.
pub open spec fn oriented(d: Dimension, flipped: bool) -> Dimension {
    if flipped {
        d.spec_flipped()
    } else {
        d
    }
}

/// Free regions, placed rectangles and result after inserting `d`.
pub open spec fn insert_outcome(
    free: Seq<Region>,
    placed: Seq<Rectangle>,
    d: Dimension,
    allow_flip: bool,
    choice: RectHeuristic,
    method: SplitHeuristic,
) -> (Seq<Region>, Seq<Rectangle>, Option<Rectangle>) {
    let w = d.spec_width_total();
    let h = d.spec_height_total();
    if w == 0 || h == 0 {
        (free, placed, None)
    } else {
        match best_choice(free, free.len() as int, w, h, allow_flip, choice) {
            None => (free, placed, None),
            Some(c) => {
                let pd = oriented(d, c.1);
                let f = free[c.0];
                let r = Rectangle::spec_new(
                    (f.x + pd.spec_padding()) as i32,
                    (f.y + pd.spec_padding()) as i32,
                    pd,
                );
                (
                    free.remove(c.0) + split_parts(
                        f,
                        pd.spec_width_total(),
                        pd.spec_height_total(),
                        method,
                    ),
                    placed.push(r),
                    Some(r),
                )
            },
        }
    }
}

/// Free regions, placed rectangles, inserted rectangles and rejected objects after
/// inserting each of `dims` in turn.
pub open spec fn insert_list_outcome(
    free: Seq<Region>,
    placed: Seq<Rectangle>,
    dims: Seq<Dimension>,
    allow_flip: bool,
    choice: RectHeuristic,
    method: SplitHeuristic,
) -> (Seq<Region>, Seq<Rectangle>, Seq<Rectangle>, Seq<Dimension>)
    decreases dims.len(),
{
    if dims.len() == 0 {
        (free, placed, Seq::empty(), Seq::empty())
    } else {
        let prev = insert_list_outcome(free, placed, dims.drop_last(), allow_flip, choice, method);
        let step = insert_outcome(prev.0, prev.1, dims.last(), allow_flip, choice, method);
        match step.2 {
            Some(r) => (step.0, step.1, prev.2.push(r), prev.3),
            None => (step.0, step.1, prev.2, prev.3.push(dims.last())),
        }
    }
}

/// Free regions added when a `w` by `h` bin grows to `nw` by `nh`: the strip on the right,
/// then the one below.
pub open spec fn grow_regions(w: int, h: int, nw: int, nh: int) -> Seq<Region> {
    keep_nonempty(
        keep_nonempty(
            Seq::empty(),
            Region { x: w as i32, y: 0, w: (nw - w) as i32, h: nh as i32 },
        ),
        Region { x: 0, y: h as i32, w: w as i32, h: (nh - h) as i32 },
    )
}

/// `a` and `b` share a whole edge, so that together they form one region.
pub open spec fn mergeable(a: Region, b: Region) -> bool {
    ||| (a.x == b.x && a.w == b.w && (a.y + a.h == b.y || b.y + b.h == a.y))
    ||| (a.y == b.y && a.h == b.h && (a.x + a.w == b.x || b.x + b.w == a.x))
}

/// The region that two mergeable regions form together.
pub open spec fn merged(a: Region, b: Region) -> Region {
    if a.x == b.x && a.w == b.w {
        Region {
            x: a.x,
            y: if a.y <= b.y {
                a.y
            } else {
                b.y
            },
            w: a.w,
            h: (a.h + b.h) as i32,
        }
    } else {
        Region {
            x: if a.x <= b.x {
                a.x
            } else {
                b.x
            },
            y: a.y,
            w: (a.w + b.w) as i32,
            h: a.h,
        }
    }
}

/// A bin packed with the Guillotine algorithm.
pub struct GuillotineBin {
    width: i32,
    height: i32,
    free: Vec<Region>,
    placed: Vec<Rectangle>,
}

/// Computes `choice_key`.
fn key_of(choice: RectHeuristic, f: Region, w: i64, h: i64) -> (r: i64)
    requires
        0 <= w <= f.w,
        0 <= h <= f.h,
    ensures
        r == choice_key(choice, f, w as int, h as int),
{
    proof {
        assert(0 <= f.w * f.h <= 0x8000_0000 * 0x8000_0000) by (nonlinear_arith)
            requires
                0 <= f.w <= 0x8000_0000,
                0 <= f.h <= 0x8000_0000,
        ;
        assert(0 <= w * h <= f.w * f.h) by (nonlinear_arith)
            requires
                0 <= w <= f.w,
                0 <= h <= f.h,
        ;
    }
    let area = f.w as i64 * f.h as i64 - w * h;
    let dw = f.w as i64 - w;
    let dh = f.h as i64 - h;
    let short = if dw <= dh {
        dw
    } else {
        dh
    };
    let long = if dw <= dh {
        dh
    } else {
        dw
    };
    match choice {
        RectHeuristic::BestAreaFit => area,
        RectHeuristic::BestShortSideFit => short,
        RectHeuristic::BestLongSideFit => long,
        RectHeuristic::WorstAreaFit => -area,
        RectHeuristic::WorstShortSideFit => -short,
        RectHeuristic::WorstLongSideFit => -long,
    }
}

/// Computes `split_horizontal`.
fn is_split_horizontal(method: SplitHeuristic, f: Region, pw: i64, ph: i64) -> (r: bool)
    requires
        0 <= pw <= f.w,
        0 <= ph <= f.h,
    ensures
        r == split_horizontal(method, f, pw as int, ph as int),
{
    let lw = f.w as i64 - pw;
    let lh = f.h as i64 - ph;
    proof {
        assert(0 <= pw * lh <= 0x8000_0000 * 0x8000_0000) by (nonlinear_arith)
            requires
                0 <= pw <= 0x8000_0000,
                0 <= lh <= 0x8000_0000,
        ;
        assert(0 <= lw * ph <= 0x8000_0000 * 0x8000_0000) by (nonlinear_arith)
            requires
                0 <= lw <= 0x8000_0000,
                0 <= ph <= 0x8000_0000,
        ;
    }
    match method {
        SplitHeuristic::ShorterLeftoverAxis => lw <= lh,
        SplitHeuristic::LongerLeftoverAxis => lw > lh,
        SplitHeuristic::MinimizeArea => pw * lh > lw * ph,
        SplitHeuristic::MaximizeArea => pw * lh <= lw * ph,
        SplitHeuristic::ShorterAxis => f.w <= f.h,
        SplitHeuristic::LongerAxis => f.w > f.h,
    }
}

/// The exec form of a candidate.
pub open spec fn cand_view(c: Option<(usize, bool, i64)>) -> Option<Candidate> {
    match c {
        None => None,
        Some(t) => Some((t.0 as int, t.1, t.2 as int)),
    }
}

/// The best candidate, where there is one, names a free region that the object fits in its
/// orientation.
proof fn lemma_best_choice(
    free: Seq<Region>,
    n: int,
    w: int,
    h: int,
    allow_flip: bool,
    choice: RectHeuristic,
)
    requires
        0 <= n <= free.len(),
    ensures
        match best_choice(free, n, w, h, allow_flip, choice) {
            Some(c) => 0 <= c.0 < n && (if c.1 {
                allow_flip && free[c.0].fits(h, w)
            } else {
                free[c.0].fits(w, h)
            }),
            None => true,
        },
    decreases n,
{
    if n > 0 {
        lemma_best_choice(free, n - 1, w, h, allow_flip, choice);
    }
}

/// Placing `rect` in free region `k` and replacing the region by `parts` keeps the bin's
/// invariant.
proof fn lemma_place(
    free: Seq<Region>,
    placed: Seq<Rectangle>,
    k: int,
    rect: Rectangle,
    parts: Seq<Region>,
    w: int,
    h: int,
)
    requires
        placed_ok(placed, w, h),
        free_ok(free, placed, w, h),
        free_disjoint(free),
        0 <= k < free.len(),
        within(padded_frame(rect), free[k].frame()),
        rect.spec_dim().nonneg(),
        rect.spec_dim().spec_width_total() > 0,
        rect.spec_dim().spec_height_total() > 0,
        forall|m: int|
            #![trigger parts[m]]
            0 <= m < parts.len() ==> parts[m].nonempty() && within(parts[m].frame(), free[k].frame())
                && apart(parts[m].frame(), padded_frame(rect)),
        forall|m: int, n: int|
            #![trigger parts[m], parts[n]]
            0 <= m < parts.len() && 0 <= n < parts.len() && m != n ==> apart(
                parts[m].frame(),
                parts[n].frame(),
            ),
        covered(free, placed, w, h),
        forall|px: int, py: int|
            #[trigger] covers(free[k], px, py) ==> in_padded(rect, px, py) || exists|m: int|
                0 <= m < parts.len() && covers(parts[m], px, py),
    ensures
        placed_ok(placed.push(rect), w, h),
        free_ok(free.remove(k) + parts, placed.push(rect), w, h),
        free_disjoint(free.remove(k) + parts),
        covered(free.remove(k) + parts, placed.push(rect), w, h),
{
    let np = placed.push(rect);
    let nf = free.remove(k) + parts;
    let f = free[k];
    assert(within(f.frame(), bin_frame(w, h)));
    assert forall|i: int, j: int|
        #![trigger np[i], np[j]]
        0 <= i < np.len() && 0 <= j < np.len() && i != j implies apart(
            padded_frame(np[i]),
            padded_frame(np[j]),
        ) by {
        if i < placed.len() && j < placed.len() {
            assert(np[i] == placed[i] && np[j] == placed[j]);
        } else if i < placed.len() {
            assert(np[i] == placed[i]);
            assert(apart(f.frame(), padded_frame(placed[i])));
        } else {
            assert(np[j] == placed[j]);
            assert(apart(f.frame(), padded_frame(placed[j])));
        }
    }
    assert forall|i: int| #![trigger np[i]] 0 <= i < np.len() implies {
        &&& within(padded_frame(np[i]), bin_frame(w, h))
        &&& np[i].spec_dim().nonneg()
        &&& np[i].spec_dim().spec_width_total() > 0
        &&& np[i].spec_dim().spec_height_total() > 0
    } by {
        if i < placed.len() {
            assert(np[i] == placed[i]);
        }
    }
    let rl = free.remove(k);
    assert forall|i: int|
        #![trigger nf[i]]
        0 <= i < nf.len() implies (nf[i].nonempty() && within(nf[i].frame(), bin_frame(w, h))) && (
        forall|j: int| #![trigger np[j]] 0 <= j < np.len() ==> apart(nf[i].frame(), padded_frame(np[j])))
        && exists|src: int| 0 <= src < free.len() && within(nf[i].frame(), #[trigger] free[src].frame()) && (src == k <==> i >= rl.len()) by {
        if i < rl.len() {
            let src = if i < k {
                i
            } else {
                i + 1
            };
            assert(nf[i] == free[src]);
            assert forall|j: int| #![trigger np[j]] 0 <= j < np.len() implies apart(
                nf[i].frame(),
                padded_frame(np[j]),
            ) by {
                if j < placed.len() {
                    assert(np[j] == placed[j]);
                } else {
                    assert(apart(free[src].frame(), f.frame()));
                }
            }
        } else {
            let m = i - rl.len();
            assert(nf[i] == parts[m]);
            assert forall|j: int| #![trigger np[j]] 0 <= j < np.len() implies apart(
                nf[i].frame(),
                padded_frame(np[j]),
            ) by {
                if j < placed.len() {
                    assert(np[j] == placed[j]);
                    assert(apart(f.frame(), padded_frame(placed[j])));
                }
            }
        }
    }
    assert forall|i: int, j: int|
        #![trigger nf[i], np[j]]
        0 <= i < nf.len() && 0 <= j < np.len() implies apart(
            nf[i].frame(),
            padded_frame(np[j]),
        ) by {
        assert(forall|j: int| #![trigger np[j]] 0 <= j < np.len() ==> apart(nf[i].frame(), padded_frame(np[j])));
    }
    assert forall|a: int, b: int|
        #![trigger nf[a], nf[b]]
        0 <= a < nf.len() && 0 <= b < nf.len() && a != b implies apart(
            nf[a].frame(),
            nf[b].frame(),
        ) by {
        if a < rl.len() && b < rl.len() {
            let sa = if a < k {
                a
            } else {
                a + 1
            };
            let sb = if b < k {
                b
            } else {
                b + 1
            };
            assert(nf[a] == free[sa] && nf[b] == free[sb]);
        } else if a < rl.len() {
            let sa = if a < k {
                a
            } else {
                a + 1
            };
            assert(nf[a] == free[sa]);
            assert(nf[b] == parts[b - rl.len()]);
            assert(apart(free[sa].frame(), f.frame()));
        } else if b < rl.len() {
            let sb = if b < k {
                b
            } else {
                b + 1
            };
            assert(nf[b] == free[sb]);
            assert(nf[a] == parts[a - rl.len()]);
            assert(apart(free[sb].frame(), f.frame()));
        } else {
            assert(nf[a] == parts[a - rl.len()]);
            assert(nf[b] == parts[b - rl.len()]);
        }
    }
    assert forall|px: int, py: int|
        0 <= px < w && 0 <= py < h implies #[trigger] point_covered(nf, np, px, py) by {
        assert(point_covered(free, placed, px, py));
        if placed_covers(placed, px, py) {
            let q = choose|q: int| 0 <= q < placed.len() && in_padded(#[trigger] placed[q], px, py);
            assert(np[q] == placed[q]);
        } else {
            let kk = choose|kk: int| 0 <= kk < free.len() && covers(#[trigger] free[kk], px, py);
            if kk == k {
                if in_padded(rect, px, py) {
                    assert(np[placed.len() as int] == rect);
                } else {
                    let m = choose|m: int| 0 <= m < parts.len() && covers(parts[m], px, py);
                    assert(nf[rl.len() + m] == parts[m]);
                }
            } else {
                let t = if kk < k {
                    kk
                } else {
                    kk - 1
                };
                assert(nf[t] == free[kk]);
            }
        }
    }
}

/// The regions that a placement cuts a free region into do not overlap the placed area nor
/// each other, and lie within the region.
proof fn lemma_split(f: Region, pw: int, ph: int, method: SplitHeuristic)
    requires
        0 < pw <= f.w,
        0 < ph <= f.h,
        f.x >= 0,
        f.y >= 0,
        f.x + f.w <= i32::MAX,
        f.y + f.h <= i32::MAX,
    ensures
        ({
            let parts = split_parts(f, pw, ph, method);
            &&& forall|m: int|
                #![trigger parts[m]]
                0 <= m < parts.len() ==> parts[m].nonempty() && within(parts[m].frame(), f.frame())
                    && apart(parts[m].frame(), (f.x as int, f.y as int, f.x + pw, f.y + ph))
            &&& forall|m: int, n: int|
                #![trigger parts[m], parts[n]]
                0 <= m < parts.len() && 0 <= n < parts.len() && m != n ==> apart(
                    parts[m].frame(),
                    parts[n].frame(),
                )
            &&& forall|px: int, py: int|
                #[trigger] covers(f, px, py) ==> (px < f.x + pw && py < f.y + ph) || exists|m: int|
                    0 <= m < parts.len() && covers(parts[m], px, py)
        }),
{
    let horizontal = split_horizontal(method, f, pw, ph);
    let b = split_bottom(f, pw, ph, horizontal);
    let r = split_right(f, pw, ph, horizontal);
    assert(apart(b.frame(), r.frame()));
    let s1 = keep_nonempty(Seq::empty(), b);
    let parts = keep_nonempty(s1, r);
    assert(parts == split_parts(f, pw, ph, method));
    assert forall|m: int| #![trigger parts[m]] 0 <= m < parts.len() implies parts[m] == b || parts[m] == r by {
        if s1.len() == 1 && m == 0 {
            assert(parts[m] == s1[0]);
        }
    }
    assert forall|px: int, py: int|
        #[trigger] covers(f, px, py) implies (px < f.x + pw && py < f.y + ph) || exists|m: int|
            0 <= m < parts.len() && covers(parts[m], px, py) by {
        if !(px < f.x + pw && py < f.y + ph) {
            if covers(b, px, py) {
                assert(parts[0] == b);
            } else {
                assert(covers(r, px, py));
                assert(parts[s1.len() as int] == r);
            }
        }
    }
}

/// Replacing two mergeable free regions by the region they form keeps the bin's invariant
/// and the points that free space covers.
proof fn lemma_merge(free: Seq<Region>, placed: Seq<Rectangle>, i: int, j: int, w: int, h: int)
    requires
        placed_ok(placed, w, h),
        free_ok(free, placed, w, h),
        free_disjoint(free),
        0 <= i < j < free.len(),
        mergeable(free[i], free[j]),
        w <= i32::MAX,
        h <= i32::MAX,
    ensures
        ({
            let n = free.update(i, merged(free[i], free[j])).remove(j);
            &&& free_ok(n, placed, w, h)
            &&& free_disjoint(n)
            &&& forall|px: int, py: int| free_covers(n, px, py) == free_covers(free, px, py)
        }),
{
    let a = free[i];
    let b = free[j];
    let m = merged(a, b);
    let n = free.update(i, m).remove(j);
    assert(a.nonempty() && b.nonempty());
    assert(within(a.frame(), bin_frame(w, h)));
    assert(within(b.frame(), bin_frame(w, h)));
    assert(apart(a.frame(), b.frame()));
    if a.x == b.x && a.w == b.w {
        assert(m.h == a.h + b.h);
    } else {
        assert(m.w == a.w + b.w);
    }
    assert(forall|px: int, py: int| covers(m, px, py) == (covers(a, px, py) || covers(b, px, py)));
    // where each region of `n` comes from
    assert forall|k: int| #![trigger n[k]] 0 <= k < n.len() implies (k == i ==> n[k] == m) && (k
        != i ==> n[k] == free[if k < j {
        k
    } else {
        k + 1
    }]) by {}
    assert forall|k: int|
        #![trigger n[k]]
        0 <= k < n.len() implies n[k].nonempty() && within(n[k].frame(), bin_frame(w, h)) by {
        if k != i {
            let src = if k < j {
                k
            } else {
                k + 1
            };
            assert(n[k] == free[src]);
        } else {
            assert(within(a.frame(), bin_frame(w, h)));
            assert(within(b.frame(), bin_frame(w, h)));
        }
    }
    assert forall|k: int, q: int|
        #![trigger n[k], placed[q]]
        0 <= k < n.len() && 0 <= q < placed.len() implies apart(
            n[k].frame(),
            padded_frame(placed[q]),
        ) by {
        if k != i {
            let src = if k < j {
                k
            } else {
                k + 1
            };
            assert(n[k] == free[src]);
        } else {
            assert(apart(a.frame(), padded_frame(placed[q])));
            assert(apart(b.frame(), padded_frame(placed[q])));
            assert(placed[q].spec_dim().nonneg());
        }
    }
    assert forall|k1: int, k2: int|
        #![trigger n[k1], n[k2]]
        0 <= k1 < n.len() && 0 <= k2 < n.len() && k1 != k2 implies apart(
            n[k1].frame(),
            n[k2].frame(),
        ) by {
        let s1 = if k1 < j {
            k1
        } else {
            k1 + 1
        };
        let s2 = if k2 < j {
            k2
        } else {
            k2 + 1
        };
        if k1 != i && k2 != i {
            assert(n[k1] == free[s1] && n[k2] == free[s2]);
        } else if k1 == i {
            assert(n[k2] == free[s2]);
            assert(apart(a.frame(), free[s2].frame()));
            assert(apart(b.frame(), free[s2].frame()));
            assert(free[s2].nonempty());
        } else {
            assert(n[k1] == free[s1]);
            assert(apart(a.frame(), free[s1].frame()));
            assert(apart(b.frame(), free[s1].frame()));
            assert(free[s1].nonempty());
        }
    }
    assert forall|px: int, py: int| free_covers(n, px, py) == free_covers(free, px, py) by {
        if free_covers(free, px, py) {
            let k = choose|k: int| 0 <= k < free.len() && covers(#[trigger] free[k], px, py);
            if k == i || k == j {
                assert(covers(n[i], px, py));
            } else {
                let t = if k < j {
                    k
                } else {
                    k - 1
                };
                assert(n[t] == free[k]);
            }
        }
        if free_covers(n, px, py) {
            let t = choose|t: int| 0 <= t < n.len() && covers(#[trigger] n[t], px, py);
            if t == i {
                if covers(a, px, py) {
                    assert(covers(free[i], px, py));
                } else {
                    assert(covers(free[j], px, py));
                }
            } else {
                let src = if t < j {
                    t
                } else {
                    t + 1
                };
                assert(n[t] == free[src]);
            }
        }
    }
}

impl GuillotineBin {
    pub closed spec fn spec_width(&self) -> i32 {
        self.width
    }

    pub closed spec fn spec_height(&self) -> i32 {
        self.height
    }

    /// The free regions, in order.
    pub closed spec fn free_regions(&self) -> Seq<Region> {
        self.free@
    }

    /// The placed rectangles, in the order of insertion.
    pub closed spec fn placed_rects(&self) -> Seq<Rectangle> {
        self.placed@
    }

    /// The bin's invariant: placed rectangles lie within the bin without overlapping; the
    /// free regions lie within the bin, disjoint from each other and from what is placed; and
    /// free regions and placed padded areas together cover the whole bin.
    pub open spec fn wf(&self) -> bool {
        &&& self.spec_width() >= 0
        &&& self.spec_height() >= 0
        &&& placed_ok(self.placed_rects(), self.spec_width() as int, self.spec_height() as int)
        &&& free_ok(
            self.free_regions(),
            self.placed_rects(),
            self.spec_width() as int,
            self.spec_height() as int,
        )
        &&& free_disjoint(self.free_regions())
        &&& covered(
            self.free_regions(),
            self.placed_rects(),
            self.spec_width() as int,
            self.spec_height() as int,
        )
    }

    /// Creates an empty bin; negative sizes become 0.
    pub fn new(width: i32, height: i32) -> (r: Self)
        ensures
            r.wf(),
            r.spec_width() == if width < 0 {
                0
            } else {
                width
            },
            r.spec_height() == if height < 0 {
                0
            } else {
                height
            },
            r.placed_rects() == Seq::<Rectangle>::empty(),
            r.free_regions() == initial_free(r.spec_width() as int, r.spec_height() as int),
    {
        Self::with_capacity(width, height, 0)
    }

    /// Creates an empty bin with room reserved for `capacity` rectangles; negative sizes
    /// become 0.
    pub fn with_capacity(width: i32, height: i32, capacity: usize) -> (r: Self)
        ensures
            r.wf(),
            r.spec_width() == if width < 0 {
                0
            } else {
                width
            },
            r.spec_height() == if height < 0 {
                0
            } else {
                height
            },
            r.placed_rects() == Seq::<Rectangle>::empty(),
            r.free_regions() == initial_free(r.spec_width() as int, r.spec_height() as int),
    {
        let w = clamp_len(width);
        let h = clamp_len(height);
        let mut free: Vec<Region> = Vec::new();
        if w > 0 && h > 0 {
            free.push(Region { x: 0, y: 0, w, h });
        }
        let placed: Vec<Rectangle> = Vec::with_capacity(capacity);
        let r = GuillotineBin { width: w, height: h, free, placed };
        proof {
            assert(r.free_regions() =~= initial_free(w as int, h as int));
            assert forall|px: int, py: int|
                0 <= px < w && 0 <= py < h implies #[trigger] point_covered(
                    r.free_regions(),
                    r.placed_rects(),
                    px,
                    py,
                ) by {
                assert(covers(r.free_regions()[0], px, py));
            }
        }
        r
    }

    /// Removes every placed rectangle; the bin keeps its size.
    pub fn clear(&mut self)
        requires
            old(self).wf(),
        ensures
            final(self).wf(),
            final(self).spec_width() == old(self).spec_width(),
            final(self).spec_height() == old(self).spec_height(),
            final(self).placed_rects() == Seq::<Rectangle>::empty(),
            final(self).free_regions() == initial_free(
                old(self).spec_width() as int,
                old(self).spec_height() as int,
            ),
    {
        *self = Self::new(self.width, self.height);
    }

    pub fn width(&self) -> (r: i32)
        ensures
            r == self.spec_width(),
    {
        self.width
    }

    pub fn height(&self) -> (r: i32)
        ensures
            r == self.spec_height(),
    {
        self.height
    }

    /// The number of placed rectangles.
    pub fn len(&self) -> (r: usize)
        ensures
            r == self.placed_rects().len(),
    {
        self.placed.len()
    }

    pub fn is_empty(&self) -> (r: bool)
        ensures
            r == (self.placed_rects().len() == 0),
    {
        self.placed.len() == 0
    }

    /// The placed rectangles, in the order of insertion.
    pub fn as_slice(&self) -> (r: &[Rectangle])
        ensures
            r@ == self.placed_rects(),
    {
        self.placed.as_slice()
    }

    /// The placed rectangles, in the order of insertion.
    pub fn iter(&self) -> (r: std::slice::Iter<'_, Rectangle>)
        ensures
            vstd::std_specs::slice::into_iter_elts(r) == self.placed_rects(),
    {
        let s = self.as_slice();
        proof {
            vstd::std_specs::slice::axiom_spec_slice_iter(s);
        }
        s.iter()
    }

    /// Draws the placed rectangles on a character grid of the bin's size, as `draw_grid` does.
    pub fn visualize(&self) -> (r: String)
        ensures
            r@ == grid_rows(self.placed_rects(), len0(self.spec_width()), len0(self.spec_height())),
    {
        draw_grid(self.placed.as_slice(), self.width, self.height)
    }

    /// The free regions, in order.
    pub fn free_slice(&self) -> (r: &[Region])
        ensures
            r@ == self.free_regions(),
    {
        self.free.as_slice()
    }

    /// The area that placed rectangles cover, padding not counted.
    pub fn used_area(&self) -> (r: i128)
        ensures
            r == content_area(self.placed_rects()),
    {
        used_area_of(&self.placed)
    }

    /// The first placed rectangle with identifier `id`.
    pub fn find_by_id(&self, id: isize) -> (r: Option<&Rectangle>)
        ensures
            match r {
                Some(rect) => exists|i: int|
                    #[trigger] first_with_id(self.placed_rects(), id, i) && *rect
                        == self.placed_rects()[i],
                None => forall|i: int|
                    0 <= i < self.placed_rects().len() ==> (
                    #[trigger] self.placed_rects()[i]).spec_id() != id,
            },
    {
        match find_first(&self.placed, id) {
            Some(i) => {
                proof {
                    assert(first_with_id(self.placed_rects(), id, i as int));
                }
                Some(&self.placed[i])
            },
            None => None,
        }
    }

    /// Places `dim` into the free region that `choice` scores best, turned by 90 degrees
    /// where `allow_flip` and that scores strictly better, and cuts the rest of the region
    /// in two with `method`. Returns `None`, and changes nothing, where `dim` with its
    /// padding is empty or fits no free region.
    pub fn insert(
        &mut self,
        dim: &Dimension,
        allow_flip: bool,
        choice: RectHeuristic,
        method: SplitHeuristic,
    ) -> (r: Option<Rectangle>)
        requires
            old(self).wf(),
        ensures
            final(self).wf(),
            final(self).spec_width() == old(self).spec_width(),
            final(self).spec_height() == old(self).spec_height(),
            (final(self).free_regions(), final(self).placed_rects(), r) == insert_outcome(
                old(self).free_regions(),
                old(self).placed_rects(),
                *dim,
                allow_flip,
                choice,
                method,
            ),
    {
        let w = dim.width_total();
        let h = dim.height_total();
        if w == 0 || h == 0 {
            return None;
        }
        match self.find_best(w, h, allow_flip, choice) {
            None => None,
            Some(b) => {
                proof {
                    lemma_best_choice(self.free@, self.free@.len() as int, w as int, h as int, allow_flip, choice);
                }
                let pd = if b.1 {
                    dim.to_flipped()
                } else {
                    *dim
                };
                proof {
                    if b.1 {
                        Dimension::lemma_flipped(*dim);
                    }
                }
                Some(self.place(b.0, pd, method))
            },
        }
    }

    /// The best candidate for a `w` by `h` object, as `best_choice` says.
    fn find_best(&self, w: i64, h: i64, allow_flip: bool, choice: RectHeuristic) -> (r: Option<
        (usize, bool, i64),
    >)
        requires
            w > 0,
            h > 0,
        ensures
            cand_view(r) == best_choice(self.free@, self.free@.len() as int, w as int, h as int, allow_flip, choice),
    {
        let mut best: Option<(usize, bool, i64)> = None;
        let mut i: usize = 0;
        while i < self.free.len()
            invariant
                i <= self.free@.len(),
                w > 0,
                h > 0,
                cand_view(best) == best_choice(self.free@, i as int, w as int, h as int, allow_flip, choice),
            decreases self.free@.len() - i,
        {
            let f = self.free[i];
            if w <= f.w as i64 && h <= f.h as i64 {
                let k = key_of(choice, f, w, h);
                match best {
                    None => {
                        best = Some((i, false, k));
                    },
                    Some(b) => {
                        if k < b.2 {
                            best = Some((i, false, k));
                        }
                    },
                }
            }
            if allow_flip && h <= f.w as i64 && w <= f.h as i64 {
                let k = key_of(choice, f, h, w);
                match best {
                    None => {
                        best = Some((i, true, k));
                    },
                    Some(b) => {
                        if k < b.2 {
                            best = Some((i, true, k));
                        }
                    },
                }
            }
            i = i + 1;
        }
        best
    }

    /// Places `pd` at the corner of free region `k` and cuts the rest of it with `method`.
    fn place(&mut self, k: usize, pd: Dimension, method: SplitHeuristic) -> (r: Rectangle)
        requires
            old(self).wf(),
            k < old(self).free_regions().len(),
            pd.spec_width_total() > 0,
            pd.spec_height_total() > 0,
            old(self).free_regions()[k as int].fits(pd.spec_width_total(), pd.spec_height_total()),
        ensures
            final(self).wf(),
            final(self).spec_width() == old(self).spec_width(),
            final(self).spec_height() == old(self).spec_height(),
            ({
                let f = old(self).free_regions()[k as int];
                &&& r == Rectangle::spec_new(
                    (f.x + pd.spec_padding()) as i32,
                    (f.y + pd.spec_padding()) as i32,
                    pd,
                )
                &&& final(self).free_regions() == old(self).free_regions().remove(k as int)
                    + split_parts(f, pd.spec_width_total(), pd.spec_height_total(), method)
                &&& final(self).placed_rects() == old(self).placed_rects().push(r)
            }),
    {
        let f = self.free[k];
        let p = pd.padding();
        // reading the sizes establishes that they are not negative
        let _w = pd.width();
        let _h = pd.height();
        let pw = pd.width_total();
        let ph = pd.height_total();
        proof {
            assert(f == self.free@[k as int]);
            assert(f.nonempty() && within(f.frame(), bin_frame(self.width as int, self.height as int)));
        }
        let rect = Rectangle::new(f.x + p, f.y + p, pd);
        let horizontal = is_split_horizontal(method, f, pw, ph);
        let bottom = Region {
            x: f.x,
            y: f.y + ph as i32,
            w: if horizontal {
                f.w
            } else {
                pw as i32
            },
            h: f.h - ph as i32,
        };
        let right = Region {
            x: f.x + pw as i32,
            y: f.y,
            w: f.w - pw as i32,
            h: if horizontal {
                ph as i32
            } else {
                f.h
            },
        };
        let ghost old_free = self.free@;
        let ghost old_placed = self.placed@;
        self.free.remove(k);
        if bottom.w > 0 && bottom.h > 0 {
            self.free.push(bottom);
        }
        if right.w > 0 && right.h > 0 {
            self.free.push(right);
        }
        self.placed.push(rect);
        proof {
            let parts = split_parts(f, pw as int, ph as int, method);
            assert(bottom == split_bottom(f, pw as int, ph as int, horizontal));
            assert(right == split_right(f, pw as int, ph as int, horizontal));
            assert(self.free@ =~= old_free.remove(k as int) + parts);
            lemma_split(f, pw as int, ph as int, method);
            assert(padded_frame(rect) == (f.x as int, f.y as int, f.x + pw, f.y + ph));
            lemma_place(
                old_free,
                old_placed,
                k as int,
                rect,
                parts,
                self.width as int,
                self.height as int,
            );
        }
        rect
    }

    /// The first pair of free regions, by index, that `mergeable` holds of.
    fn find_mergeable(&self) -> (r: Option<(usize, usize)>)
        ensures
            match r {
                Some(p) => p.0 < p.1 < self.free@.len() && mergeable(self.free@[p.0 as int], self.free@[p.1 as int]),
                None => forall|i: int, j: int|
                    0 <= i < j < self.free@.len() ==> !mergeable(#[trigger] self.free@[i], #[trigger] self.free@[j]),
            },
    {
        let n = self.free.len();
        let mut i: usize = 0;
        while i < n
            invariant
                n == self.free@.len(),
                i <= n,
                forall|a: int, b: int|
                    0 <= a < i && a < b < n ==> !mergeable(#[trigger] self.free@[a], #[trigger] self.free@[b]),
            decreases n - i,
        {
            let a = self.free[i];
            let mut j: usize = i + 1;
            while j < n
                invariant
                    n == self.free@.len(),
                    i < n,
                    i + 1 <= j <= n,
                    a == self.free@[i as int],
                    forall|b: int| i < b < j ==> !mergeable(a, #[trigger] self.free@[b]),
                decreases n - j,
            {
                let b = self.free[j];
                let column = a.x == b.x && a.w == b.w && (a.y as i64 + a.h as i64 == b.y as i64
                    || b.y as i64 + b.h as i64 == a.y as i64);
                let row = a.y == b.y && a.h == b.h && (a.x as i64 + a.w as i64 == b.x as i64
                    || b.x as i64 + b.w as i64 == a.x as i64);
                if column || row {
                    return Some((i, j));
                }
                j = j + 1;
            }
            i = i + 1;
        }
        None
    }

    /// Joins free regions that share a whole edge, pair by pair, until no two do. The free
    /// space covers the same points as before, in fewer or as many regions.
    pub fn merge_free_regions(&mut self)
        requires
            old(self).wf(),
        ensures
            final(self).wf(),
            final(self).spec_width() == old(self).spec_width(),
            final(self).spec_height() == old(self).spec_height(),
            final(self).placed_rects() == old(self).placed_rects(),
            final(self).free_regions().len() <= old(self).free_regions().len(),
            forall|px: int, py: int|
                free_covers(final(self).free_regions(), px, py) == free_covers(
                    old(self).free_regions(),
                    px,
                    py,
                ),
            forall|i: int, j: int|
                0 <= i < j < final(self).free_regions().len() ==> !mergeable(
                    #[trigger] final(self).free_regions()[i],
                    #[trigger] final(self).free_regions()[j],
                ),
    {
        loop
            invariant
                self.wf(),
                self.spec_width() == old(self).spec_width(),
                self.spec_height() == old(self).spec_height(),
                self.placed_rects() == old(self).placed_rects(),
                self.free_regions().len() <= old(self).free_regions().len(),
                forall|px: int, py: int|
                    free_covers(self.free_regions(), px, py) == free_covers(
                        old(self).free_regions(),
                        px,
                        py,
                    ),
            ensures
                self.wf(),
                self.spec_width() == old(self).spec_width(),
                self.spec_height() == old(self).spec_height(),
                self.placed_rects() == old(self).placed_rects(),
                self.free_regions().len() <= old(self).free_regions().len(),
                forall|px: int, py: int|
                    free_covers(self.free_regions(), px, py) == free_covers(
                        old(self).free_regions(),
                        px,
                        py,
                    ),
                forall|i: int, j: int|
                    0 <= i < j < self.free_regions().len() ==> !mergeable(
                        #[trigger] self.free_regions()[i],
                        #[trigger] self.free_regions()[j],
                    ),
            decreases self.free@.len(),
        {
            match self.find_mergeable() {
                None => break,
                Some(p) => {
                    let (i, j) = p;
                    let a = self.free[i];
                    let b = self.free[j];
                    let ghost before = self.free@;
                    proof {
                        assert(within(a.frame(), bin_frame(self.width as int, self.height as int)));
                        assert(within(b.frame(), bin_frame(self.width as int, self.height as int)));
                        assert(apart(a.frame(), b.frame()));
                    }
                    let m = if a.x == b.x && a.w == b.w {
                        Region { x: a.x, y: if a.y <= b.y { a.y } else { b.y }, w: a.w, h: a.h + b.h }
                    } else {
                        Region { x: if a.x <= b.x { a.x } else { b.x }, y: a.y, w: a.w + b.w, h: a.h }
                    };
                    self.free.set(i, m);
                    self.free.remove(j);
                    proof {
                        assert(m == merged(a, b));
                        lemma_merge(
                            before,
                            self.placed@,
                            i as int,
                            j as int,
                            self.width as int,
                            self.height as int,
                        );
                        assert(self.free@ =~= before.update(i as int, m).remove(j as int));
                        assert forall|px: int, py: int|
                            0 <= px < self.width && 0 <= py < self.height implies #[trigger] point_covered(
                                self.free@,
                                self.placed@,
                                px,
                                py,
                            ) by {
                            assert(point_covered(before, self.placed@, px, py));
                        }
                    }
                },
            }
        }
    }

    /// Inserts each of `dims` in turn as `insert` does; returns the rectangles placed, in
    /// order, and the objects that did not fit, in order.
    pub fn insert_list(
        &mut self,
        dims: &[Dimension],
        allow_flip: bool,
        choice: RectHeuristic,
        method: SplitHeuristic,
    ) -> (r: (Vec<Rectangle>, Vec<Dimension>))
        requires
            old(self).wf(),
        ensures
            final(self).wf(),
            final(self).spec_width() == old(self).spec_width(),
            final(self).spec_height() == old(self).spec_height(),
            r.0@.len() + r.1@.len() == dims@.len(),
            (final(self).free_regions(), final(self).placed_rects(), r.0@, r.1@)
                == insert_list_outcome(
                old(self).free_regions(),
                old(self).placed_rects(),
                dims@,
                allow_flip,
                choice,
                method,
            ),
    {
        let mut inserted: Vec<Rectangle> = Vec::new();
        let mut rejected: Vec<Dimension> = Vec::new();
        let mut i: usize = 0;
        while i < dims.len()
            invariant
                i <= dims@.len(),
                self.wf(),
                self.spec_width() == old(self).spec_width(),
                self.spec_height() == old(self).spec_height(),
                inserted@.len() + rejected@.len() == i,
                (self.free_regions(), self.placed_rects(), inserted@, rejected@)
                    == insert_list_outcome(
                    old(self).free_regions(),
                    old(self).placed_rects(),
                    dims@.subrange(0, i as int),
                    allow_flip,
                    choice,
                    method,
                ),
            decreases dims@.len() - i,
        {
            let d = &dims[i];
            proof {
                assert(dims@.subrange(0, i + 1).drop_last() =~= dims@.subrange(0, i as int));
                assert(dims@.subrange(0, i + 1).last() == dims@[i as int]);
            }
            match self.insert(d, allow_flip, choice, method) {
                Some(rect) => inserted.push(rect),
                None => rejected.push(*d),
            }
            i = i + 1;
        }
        proof {
            assert(dims@.subrange(0, i as int) =~= dims@);
        }
        (inserted, rejected)
    }

    /// Widens the bin by `dw` and heightens it by `dh`, each bound by `i32::MAX` (negative
    /// values change nothing), and adds the new space as free regions. Placed rectangles
    /// stay where they are.
    pub fn grow(&mut self, dw: i32, dh: i32)
        requires
            old(self).wf(),
        ensures
            final(self).wf(),
            final(self).spec_width() == grown_len(old(self).spec_width() as int, dw as int),
            final(self).spec_height() == grown_len(old(self).spec_height() as int, dh as int),
            final(self).spec_width() >= old(self).spec_width(),
            final(self).spec_height() >= old(self).spec_height(),
            final(self).placed_rects() == old(self).placed_rects(),
            final(self).free_regions() == old(self).free_regions() + grow_regions(
                old(self).spec_width() as int,
                old(self).spec_height() as int,
                final(self).spec_width() as int,
                final(self).spec_height() as int,
            ),
    {
        let w = self.width;
        let h = self.height;
        let nw = grow_len(w, dw);
        let nh = grow_len(h, dh);
        let ghost old_free = self.free@;
        let a = Region { x: w, y: 0, w: nw - w, h: nh };
        let b = Region { x: 0, y: h, w, h: nh - h };
        if a.w > 0 && a.h > 0 {
            self.free.push(a);
        }
        if b.w > 0 && b.h > 0 {
            self.free.push(b);
        }
        self.width = nw;
        self.height = nh;
        proof {
            let added = grow_regions(w as int, h as int, nw as int, nh as int);
            assert(self.free@ =~= old_free + added);
            lemma_grow(old_free, self.placed@, added, w as int, h as int, nw as int, nh as int);
        }
    }

    /// Reduces the bin to the smallest size, or power of two where `power_of_two`, that
    /// holds every placed rectangle with its padding, never beyond its current size; free
    /// regions are cut to the new size. A bin with nothing placed is left as it is.
    pub fn shrink(&mut self, power_of_two: bool)
        requires
            old(self).wf(),
        ensures
            final(self).wf(),
            (final(self).spec_width() as int, final(self).spec_height() as int) == shrunk_size(
                old(self).spec_width() as int,
                old(self).spec_height() as int,
                old(self).placed_rects(),
                power_of_two,
            ),
            final(self).placed_rects() == old(self).placed_rects(),
            final(self).free_regions() == clip_all(
                old(self).free_regions(),
                final(self).spec_width() as int,
                final(self).spec_height() as int,
            ),
    {
        let (nw, nh) = shrink_to(&self.placed, self.width, self.height, power_of_two);
        proof {
            assert forall|i: int|
                #![trigger self.free@[i]]
                0 <= i < self.free@.len() implies self.free@[i].nonempty() && self.free@[i].x >= 0
                    && self.free@[i].y >= 0 && self.free@[i].x + self.free@[i].w <= i32::MAX
                    && self.free@[i].y + self.free@[i].h <= i32::MAX by {
                assert(within(self.free@[i].frame(), bin_frame(self.width as int, self.height as int)));
            }
        }
        let free = clip_regions(&self.free, nw, nh);
        proof {
            let placed = self.placed@;
            assert forall|i: int, j: int|
                #![trigger free@[i], placed[j]]
                0 <= i < free@.len() && 0 <= j < placed.len() implies apart(
                    free@[i].frame(),
                    padded_frame(placed[j]),
                ) by {
                let m = choose|m: int|
                    0 <= m < self.free@.len() && within(free@[i].frame(), #[trigger] self.free@[m].frame());
                assert(apart(self.free@[m].frame(), padded_frame(placed[j])));
            }
        }
        proof {
            let placed = self.placed@;
            assert forall|px: int, py: int|
                0 <= px < nw && 0 <= py < nh implies #[trigger] point_covered(free@, placed, px, py) by {
                assert(point_covered(self.free@, placed, px, py));
                if free_covers(self.free@, px, py) {
                    let m = choose|m: int| 0 <= m < self.free@.len() && covers(#[trigger] self.free@[m], px, py);
                    assert(covers(self.free@[m], px, py));
                }
            }
        }
        self.free = free;
        self.width = nw;
        self.height = nh;
    }
}

/// Adding the strips that growing a bin opens keeps the bin's invariant.
proof fn lemma_grow(
    free: Seq<Region>,
    placed: Seq<Rectangle>,
    added: Seq<Region>,
    w: int,
    h: int,
    nw: int,
    nh: int,
)
    requires
        placed_ok(placed, w, h),
        free_ok(free, placed, w, h),
        free_disjoint(free),
        0 <= w <= nw <= i32::MAX,
        0 <= h <= nh <= i32::MAX,
        added == grow_regions(w, h, nw, nh),
        covered(free, placed, w, h),
    ensures
        placed_ok(placed, nw, nh),
        free_ok(free + added, placed, nw, nh),
        free_disjoint(free + added),
        covered(free + added, placed, nw, nh),
{
    let a = Region { x: w as i32, y: 0, w: (nw - w) as i32, h: nh as i32 };
    let b = Region { x: 0, y: h as i32, w: w as i32, h: (nh - h) as i32 };
    let s1 = keep_nonempty(Seq::empty(), a);
    assert forall|m: int| #![trigger added[m]] 0 <= m < added.len() implies added[m] == a
        || added[m] == b by {
        if s1.len() == 1 && m == 0 {
            assert(added[m] == s1[0]);
        }
    }
    assert forall|m: int, n: int|
        #![trigger added[m], added[n]]
        0 <= m < added.len() && 0 <= n < added.len() && m != n implies added[m] != added[n] by {
        if s1.len() == 1 {
            assert(added[0] == a);
            assert(added[1] == b);
        }
    }
    let nf = free + added;
    assert forall|i: int| #![trigger placed[i]] 0 <= i < placed.len() implies within(
        padded_frame(placed[i]),
        bin_frame(nw, nh),
    ) by {
        assert(within(padded_frame(placed[i]), bin_frame(w, h)));
    }
    assert forall|i: int|
        #![trigger nf[i]]
        0 <= i < nf.len() implies nf[i].nonempty() && within(nf[i].frame(), bin_frame(nw, nh)) && (
        i < free.len() ==> nf[i] == free[i] && within(nf[i].frame(), bin_frame(w, h))) && (i
        >= free.len() ==> nf[i] == a || nf[i] == b) by {
        if i < free.len() {
            assert(nf[i] == free[i]);
        } else {
            assert(nf[i] == added[i - free.len()]);
        }
    }
    assert forall|i: int, j: int|
        #![trigger nf[i], placed[j]]
        0 <= i < nf.len() && 0 <= j < placed.len() implies apart(
            nf[i].frame(),
            padded_frame(placed[j]),
        ) by {
        assert(within(padded_frame(placed[j]), bin_frame(w, h)));
        if i < free.len() {
            assert(nf[i] == free[i]);
        }
    }
    assert forall|i: int, j: int|
        #![trigger nf[i], nf[j]]
        0 <= i < nf.len() && 0 <= j < nf.len() && i != j implies apart(
            nf[i].frame(),
            nf[j].frame(),
        ) by {
        if i < free.len() && j < free.len() {
            assert(nf[i] == free[i] && nf[j] == free[j]);
        } else if i >= free.len() && j >= free.len() {
            assert(nf[i] == added[i - free.len()]);
            assert(nf[j] == added[j - free.len()]);
        }
    }
    assert forall|px: int, py: int|
        0 <= px < nw && 0 <= py < nh implies #[trigger] point_covered(nf, placed, px, py) by {
        if px < w && py < h {
            assert(point_covered(free, placed, px, py));
            if free_covers(free, px, py) {
                let k = choose|k: int| 0 <= k < free.len() && covers(#[trigger] free[k], px, py);
                assert(nf[k] == free[k]);
            }
        } else if px >= w {
            assert(covers(a, px, py));
            assert(nf[free.len() as int] == a);
        } else {
            assert(covers(b, px, py));
            assert(nf[(free.len() + s1.len()) as int] == b);
        }
    }
}

/// Whatever sequence of operations produced a bin, no two of its placed rectangles
/// intersect.
pub proof fn lemma_placed_disjoint(bin: &GuillotineBin)
    requires
        bin.wf(),
    ensures
        forall|i: int, j: int|
            #![trigger bin.placed_rects()[i], bin.placed_rects()[j]]
            0 <= i < bin.placed_rects().len() && 0 <= j < bin.placed_rects().len() && i != j
                ==> !bin.placed_rects()[i].spec_intersects(&bin.placed_rects()[j]),
{
    lemma_no_intersection(bin.placed_rects(), bin.spec_width() as int, bin.spec_height() as int);
}

/// Every placed rectangle's padded area lies within the bin.
pub proof fn lemma_placed_within(bin: &GuillotineBin)
    requires
        bin.wf(),
    ensures
        forall|i: int|
            #![trigger bin.placed_rects()[i]]
            0 <= i < bin.placed_rects().len() ==> {
                let r = bin.placed_rects()[i];
                &&& 0 <= r.left_total()
                &&& 0 <= r.top_total()
                &&& r.right_total() <= bin.spec_width()
                &&& r.bottom_total() <= bin.spec_height()
            },
{
}


/// What an insertion places: the object itself, or turned where turning is allowed; and an
/// object that is not empty with its padding and fits a fresh bin is placed there.
pub proof fn lemma_insert_places(
    free: Seq<Region>,
    placed: Seq<Rectangle>,
    d: Dimension,
    allow_flip: bool,
    choice: RectHeuristic,
    method: SplitHeuristic,
)
    ensures
        ({
            let o = insert_outcome(free, placed, d, allow_flip, choice, method);
            match o.2 {
                Some(r) => o.1 == placed.push(r) && (r.spec_dim() == d || (allow_flip
                    && r.spec_dim() == d.spec_flipped())),
                None => o.1 == placed,
            }
        }),
        forall|w: int, h: int|
            #![trigger initial_free(w, h), insert_outcome(initial_free(w, h), placed, d, allow_flip, choice, method)]
            0 < d.spec_width_total() <= w <= i32::MAX && 0 < d.spec_height_total() <= h <= i32::MAX
                ==> insert_outcome(initial_free(w, h), placed, d, allow_flip, choice, method).2 is Some,
{
    let w = d.spec_width_total();
    let h = d.spec_height_total();
    if w != 0 && h != 0 {
        match best_choice(free, free.len() as int, w, h, allow_flip, choice) {
            None => {},
            Some(c) => {
                let pd = oriented(d, c.1);
                let f = free[c.0];
                Rectangle::lemma_spec_new(
                    (f.x + pd.spec_padding()) as i32,
                    (f.y + pd.spec_padding()) as i32,
                    pd,
                );
                lemma_best_choice(free, free.len() as int, w, h, allow_flip, choice);
            },
        }
    }
    assert forall|bw: int, bh: int|
        #![trigger initial_free(bw, bh), insert_outcome(initial_free(bw, bh), placed, d, allow_flip, choice, method)]
        0 < d.spec_width_total() <= bw <= i32::MAX && 0 < d.spec_height_total() <= bh <= i32::MAX
            implies insert_outcome(initial_free(bw, bh), placed, d, allow_flip, choice, method).2 is Some by {
        let fr = initial_free(bw, bh);
        reveal_with_fuel(best_choice, 2);
        assert(fr[0].fits(w, h));
        assert(best_choice(fr, 1, w, h, allow_flip, choice) is Some);
    }
}

/// Inserting a list appends exactly the inserted rectangles to the placed ones.
pub proof fn lemma_insert_list_places(
    free: Seq<Region>,
    placed: Seq<Rectangle>,
    dims: Seq<Dimension>,
    allow_flip: bool,
    choice: RectHeuristic,
    method: SplitHeuristic,
)
    ensures
        ({
            let o = insert_list_outcome(free, placed, dims, allow_flip, choice, method);
            o.1 == placed + o.2
        }),
    decreases dims.len(),
{
    if dims.len() > 0 {
        lemma_insert_list_places(free, placed, dims.drop_last(), allow_flip, choice, method);
        let prev = insert_list_outcome(free, placed, dims.drop_last(), allow_flip, choice, method);
        lemma_insert_places(prev.0, prev.1, dims.last(), allow_flip, choice, method);
        let o = insert_list_outcome(free, placed, dims, allow_flip, choice, method);
        assert(o.1 =~= placed + o.2);
    } else {
        assert(placed + Seq::<Rectangle>::empty() =~= placed);
    }
}

/// There is a best candidate among the first `n` free regions exactly where one of them
/// takes the object.
proof fn lemma_best_choice_exists(
    free: Seq<Region>,
    n: int,
    w: int,
    h: int,
    allow_flip: bool,
    choice: RectHeuristic,
)
    requires
        0 <= n <= free.len(),
    ensures
        best_choice(free, n, w, h, allow_flip, choice) is Some <==> exists|i: int|
            0 <= i < n && ((#[trigger] free[i]).fits(w, h) || (allow_flip && free[i].fits(h, w))),
    decreases n,
{
    if n > 0 {
        lemma_best_choice_exists(free, n - 1, w, h, allow_flip, choice);
        if best_choice(free, n - 1, w, h, allow_flip, choice) is Some {
            let i = choose|i: int|
                0 <= i < n - 1 && ((#[trigger] free[i]).fits(w, h) || (allow_flip && free[i].fits(h, w)));
            assert(0 <= i < n);
        }
    }
}

/// Inserting succeeds exactly where the object is not empty with its padding and fits some
/// free region, upright or, where turning is allowed, turned.
pub proof fn lemma_insert_succeeds(
    free: Seq<Region>,
    placed: Seq<Rectangle>,
    d: Dimension,
    allow_flip: bool,
    choice: RectHeuristic,
    method: SplitHeuristic,
)
    ensures
        ({
            let w = d.spec_width_total();
            let h = d.spec_height_total();
            insert_outcome(free, placed, d, allow_flip, choice, method).2 is Some <==> (w != 0 && h
                != 0 && exists|i: int|
                0 <= i < free.len() && ((#[trigger] free[i]).fits(w, h) || (allow_flip
                    && free[i].fits(h, w))))
        }),
{
    lemma_best_choice_exists(
        free,
        free.len() as int,
        d.spec_width_total(),
        d.spec_height_total(),
        allow_flip,
        choice,
    );
}

/// Free regions and placed rectangles of a bin.
pub type BinState = (Seq<Region>, Seq<Rectangle>);

/// The bins, as free regions and placed rectangles, that inserting each of `nodes` in turn
/// into the last bin gives, where each object that the last bin rejects opens a new bin of
/// `w` by `h`: the closed bins, in order, and the last one.
pub open spec fn next_fit(
    nodes: Seq<Dimension>,
    w: int,
    h: int,
    allow_flip: bool,
    choice: RectHeuristic,
    method: SplitHeuristic,
) -> (Seq<BinState>, BinState)
    decreases nodes.len(),
{
    if nodes.len() == 0 {
        (Seq::empty(), (initial_free(w, h), Seq::empty()))
    } else {
        let prev = next_fit(nodes.drop_last(), w, h, allow_flip, choice, method);
        let d = nodes.last();
        let o = insert_outcome(prev.1.0, prev.1.1, d, allow_flip, choice, method);
        if o.2 is Some {
            (prev.0, (o.0, o.1))
        } else {
            let n = insert_outcome(initial_free(w, h), Seq::empty(), d, allow_flip, choice, method);
            (prev.0.push(prev.1), (n.0, n.1))
        }
    }
}

/// All rectangles placed in `bins`, bin by bin.
pub open spec fn all_placed(bins: Seq<GuillotineBin>) -> Seq<Rectangle>
    decreases bins.len(),
{
    if bins.len() == 0 {
        Seq::empty()
    } else {
        all_placed(bins.drop_last()) + bins.last().placed_rects()
    }
}

/// Packs `nodes` into bins of `bin_width` by `bin_height` (negative sizes become 0).
///
/// Fails, before anything is placed, with the error of the first object that is empty with
/// its padding (`ItemTooSmall`) or larger than a bin (`ItemTooBig`). Otherwise the objects
/// are inserted in order into the last bin; where `allow_new_bins`, an object that the last
/// bin rejects opens a new bin, so that every object is placed; else a single bin is filled
/// as `insert_list` fills it.
pub fn pack_bins(
    nodes: &[Dimension],
    bin_width: i32,
    bin_height: i32,
    allow_new_bins: bool,
    choice: RectHeuristic,
    method: SplitHeuristic,
    allow_flip: bool,
) -> (r: Result<Vec<GuillotineBin>, BinError>)
    ensures
        ({
            let w = if bin_width < 0 {
                0
            } else {
                bin_width as int
            };
            let h = if bin_height < 0 {
                0
            } else {
                bin_height as int
            };
            match r {
                Err(e) => first_error(nodes@, w, h) == Some(e),
                Ok(bins) => {
                    &&& first_error(nodes@, w, h) is None
                    &&& bins@.len() >= 1
                    &&& forall|k: int|
                        #![trigger bins@[k]]
                        0 <= k < bins@.len() ==> bins@[k].wf() && bins@[k].spec_width() == w
                            && bins@[k].spec_height() == h
                    &&& !allow_new_bins ==> {
                        let o = insert_list_outcome(
                            initial_free(w, h),
                            Seq::empty(),
                            nodes@,
                            allow_flip,
                            choice,
                            method,
                        );
                        bins@.len() == 1 && bins@[0].free_regions() == o.0
                            && bins@[0].placed_rects() == o.1
                    }
                    &&& allow_new_bins ==> {
                        let nf = next_fit(nodes@, w, h, allow_flip, choice, method);
                        &&& bins@.len() == nf.0.len() + 1
                        &&& forall|k: int|
                            #![trigger bins@[k]]
                            0 <= k < nf.0.len() ==> (bins@[k].free_regions(), bins@[k].placed_rects())
                                == nf.0[k]
                        &&& (bins@.last().free_regions(), bins@.last().placed_rects()) == nf.1
                        &&& all_placed(bins@).len() == nodes@.len()
                        &&& forall|k: int|
                            #![trigger all_placed(bins@)[k]]
                            0 <= k < nodes@.len() ==> all_placed(bins@)[k].spec_dim() == nodes@[k]
                                || (allow_flip && all_placed(bins@)[k].spec_dim()
                                == nodes@[k].spec_flipped())
                    }
                },
            }
        }),
{
    let w = clamp_len(bin_width);
    let h = clamp_len(bin_height);
    if let Some(e) = check_items(nodes, w, h) {
        return Err(e);
    }
    let mut cur = GuillotineBin::new(w, h);
    if !allow_new_bins {
        cur.insert_list(nodes, allow_flip, choice, method);
        let mut bins: Vec<GuillotineBin> = Vec::new();
        bins.push(cur);
        return Ok(bins);
    }
    proof {
        lemma_no_error(nodes@, w as int, h as int);
    }
    let mut done: Vec<GuillotineBin> = Vec::new();
    let mut i: usize = 0;
    while i < nodes.len()
        invariant
            i <= nodes@.len(),
            w >= 0,
            h >= 0,
            forall|k: int|
                0 <= k < nodes@.len() ==> item_error(#[trigger] nodes@[k], w as int, h as int)
                    is None,
            cur.wf(),
            cur.spec_width() == w,
            cur.spec_height() == h,
            forall|k: int|
                #![trigger done@[k]]
                0 <= k < done@.len() ==> done@[k].wf() && done@[k].spec_width() == w
                    && done@[k].spec_height() == h,
            (all_placed(done@) + cur.placed_rects()).len() == i,
            ({
                let nf = next_fit(nodes@.subrange(0, i as int), w as int, h as int, allow_flip, choice, method);
                &&& done@.len() == nf.0.len()
                &&& forall|k: int|
                    #![trigger done@[k]]
                    0 <= k < done@.len() ==> (done@[k].free_regions(), done@[k].placed_rects()) == nf.0[k]
                &&& (cur.free_regions(), cur.placed_rects()) == nf.1
            }),
            forall|k: int|
                #![trigger (all_placed(done@) + cur.placed_rects())[k]]
                0 <= k < i ==> (all_placed(done@) + cur.placed_rects())[k].spec_dim() == nodes@[k]
                    || (allow_flip && (all_placed(done@) + cur.placed_rects())[k].spec_dim()
                    == nodes@[k].spec_flipped()),
        decreases nodes@.len() - i,
    {
        let d = &nodes[i];
        // reading the sizes establishes that they are not negative
        let _wt = d.width_total();
        let _ht = d.height_total();
        let ghost before = all_placed(done@) + cur.placed_rects();
        let ghost old_cur = cur;
        let ghost old_done_all = done@;
        proof {
            assert(nodes@.subrange(0, i + 1).drop_last() =~= nodes@.subrange(0, i as int));
            assert(nodes@.subrange(0, i + 1).last() == nodes@[i as int]);
        }
        proof {
            lemma_insert_places(cur.free_regions(), cur.placed_rects(), *d, allow_flip, choice, method);
        }
        let placed = cur.insert(d, allow_flip, choice, method);
        if placed.is_none() {
            let ghost old_done = done@;
            let fresh = GuillotineBin::new(w, h);
            done.push(cur);
            cur = fresh;
            proof {
                assert(done@.drop_last() =~= old_done);
                assert(all_placed(done@) == all_placed(old_done) + old_cur.placed_rects());
                assert(item_error(nodes@[i as int], w as int, h as int) is None);
                lemma_insert_places(cur.free_regions(), cur.placed_rects(), *d, allow_flip, choice, method);
                assert(insert_outcome(initial_free(w as int, h as int), Seq::empty(), *d, allow_flip, choice, method).2 is Some);
                assert forall|k: int|
                    #![trigger done@[k]]
                    0 <= k < done@.len() implies done@[k].wf() && done@[k].spec_width() == w
                        && done@[k].spec_height() == h by {
                    if k < old_done.len() {
                        assert(done@[k] == old_done[k]);
                    }
                }
            }
            cur.insert(d, allow_flip, choice, method);
        }
        proof {
            let nf0 = next_fit(nodes@.subrange(0, i as int), w as int, h as int, allow_flip, choice, method);
            let nf1 = next_fit(nodes@.subrange(0, i + 1), w as int, h as int, allow_flip, choice, method);
            if placed.is_none() {
                assert(done@.len() == old_done_all.len() + 1);
                assert((done@.last().free_regions(), done@.last().placed_rects()) == nf0.1);
                assert forall|k: int|
                    #![trigger done@[k]]
                    0 <= k < done@.len() implies (done@[k].free_regions(), done@[k].placed_rects())
                        == nf1.0[k] by {
                    if k < old_done_all.len() {
                        assert(done@[k] == old_done_all[k]);
                    }
                }
            }
            let after = all_placed(done@) + cur.placed_rects();
            assert(after.len() == i + 1);
            assert forall|k: int|
                #![trigger (all_placed(done@) + cur.placed_rects())[k]]
                0 <= k < i + 1 implies (all_placed(done@) + cur.placed_rects())[k].spec_dim() == nodes@[k]
                    || (allow_flip && (all_placed(done@) + cur.placed_rects())[k].spec_dim()
                    == nodes@[k].spec_flipped()) by {
                if k < i {
                    assert(after[k] == before[k]);
                } else {
                    assert(after[k] == cur.placed_rects().last());
                }
            }
        }
        i = i + 1;
    }
    let ghost old_done = done@;
    done.push(cur);
    proof {
        assert(nodes@.subrange(0, i as int) =~= nodes@);
        assert(done@.drop_last() =~= old_done);
        assert forall|k: int|
            #![trigger done@[k]]
            0 <= k < done@.len() implies done@[k].wf() && done@[k].spec_width() == w
                && done@[k].spec_height() == h by {
            if k < old_done.len() {
                assert(done@[k] == old_done[k]);
            }
        }
    }
    Ok(done)
}

} // verus!
