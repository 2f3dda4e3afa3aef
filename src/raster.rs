use vstd::prelude::*;
use crate::mesh::{Mesh, Site, COORD_LIMIT};

verus! {

/// Largest raster width or height.
pub const MAX_RASTER_SIDE: u32 = 0x4000;

#[derive(Clone, Copy, Debug, PartialEq, Eq, Structural)]
pub enum RasterError {
    /// The field has no sites to sample.
    EmptyField,
    /// A range has no extent, or a raster side is zero or too large.
    DegenerateRange,
}

/// A half-open span of domain coordinates `[lo, hi)` with `lo < hi`.
#[derive(Clone, Copy, Debug)]
pub struct Span {
    pub lo: i64,
    pub hi: i64,
}

pub open spec fn span_ok(s: Span) -> bool {
    -COORD_LIMIT <= s.lo <= s.hi <= COORD_LIMIT
}

/// Twice `cells` times the coordinate of the centre of cell `p` when `span`
/// is cut into `cells` equal cells.
pub open spec fn center2(span: Span, cells: int, p: int) -> int {
    2 * span.lo * cells + (2 * p + 1) * (span.hi - span.lo)
}

/// The squared distance from the centre of pixel `(px, py)` to `s`, scaled by
/// `4 * w^2 * h^2` so that it is an integer.
pub open spec fn pixel_dist(xs: Span, ys: Span, w: int, h: int, px: int, py: int, s: Site) -> int {
    let dx = center2(xs, w, px) - 2 * w * s.x;
    let dy = center2(ys, h, py) - 2 * h * s.y;
    dx * dx * (h * h) + dy * dy * (w * w)
}

/// Site `i` is the nearest to the centre of pixel `(px, py)`, the lowest
/// index among equally near sites.
pub open spec fn nearest(sites: Seq<Site>, xs: Span, ys: Span, w: int, h: int, px: int, py: int, i: int) -> bool {
    &&& 0 <= i < sites.len()
    &&& forall|j: int| 0 <= j < sites.len() ==> {
        let di = pixel_dist(xs, ys, w, h, px, py, sites[i]);
        let dj = #[trigger] pixel_dist(xs, ys, w, h, px, py, sites[j]);
        di < dj || (di == dj && i <= j)
    }
}

fn pixel_dist_exec(xs: Span, ys: Span, w: u32, h: u32, px: u32, py: u32, s: Site) -> (r: i128)
    requires
        span_ok(xs),
        span_ok(ys),
        1 <= w <= MAX_RASTER_SIDE,
        1 <= h <= MAX_RASTER_SIDE,
        px < w,
        py < h,
        -COORD_LIMIT <= s.x <= COORD_LIMIT,
        -COORD_LIMIT <= s.y <= COORD_LIMIT,
    ensures
        r == pixel_dist(xs, ys, w as int, h as int, px as int, py as int, s),
{
    let cx = center2_exec(xs, w, px);
    let cy = center2_exec(ys, h, py);
    proof {
        assert(-0x2000_0000_0000 <= 2 * w * s.x <= 0x2000_0000_0000) by (nonlinear_arith)
            requires 1 <= w <= 0x4000, -0x4000_0000 <= s.x <= 0x4000_0000;
        assert(-0x2000_0000_0000 <= 2 * h * s.y <= 0x2000_0000_0000) by (nonlinear_arith)
            requires 1 <= h <= 0x4000, -0x4000_0000 <= s.y <= 0x4000_0000;
    }
    let sx = 2 * (w as i128) * (s.x as i128);
    let sy = 2 * (h as i128) * (s.y as i128);
    let dx = cx - sx;
    let dy = cy - sy;
    proof {
        assert(0 <= h * h <= 0x1000_0000 && 0 <= w * w <= 0x1000_0000) by (nonlinear_arith)
            requires 1 <= w <= 0x4000, 1 <= h <= 0x4000;
    }
    let hh = (h as i128) * (h as i128);
    let ww = (w as i128) * (w as i128);
    proof {
        assert(0 <= dx * dx <= 0x1_0000_0000_0000_0000_0000_0000) by (nonlinear_arith)
            requires -0x1_0000_0000_0000 <= dx <= 0x1_0000_0000_0000;
        assert(0 <= dy * dy <= 0x1_0000_0000_0000_0000_0000_0000) by (nonlinear_arith)
            requires -0x1_0000_0000_0000 <= dy <= 0x1_0000_0000_0000;
        assert(0 <= hh <= 0x1000_0000 && 0 <= ww <= 0x1000_0000) by (nonlinear_arith)
            requires hh == h * h, ww == w * w, 1 <= w <= 0x4000, 1 <= h <= 0x4000;
        assert(0 <= (dx * dx) * hh <= 0x1000_0000_0000_0000_0000_0000_0000_0000) by (nonlinear_arith)
            requires 0 <= dx * dx <= 0x1_0000_0000_0000_0000_0000_0000, 0 <= hh <= 0x1000_0000;
        assert(0 <= (dy * dy) * ww <= 0x1000_0000_0000_0000_0000_0000_0000_0000) by (nonlinear_arith)
            requires 0 <= dy * dy <= 0x1_0000_0000_0000_0000_0000_0000, 0 <= ww <= 0x1000_0000;
    }
    dx * dx * hh + dy * dy * ww
}

fn center2_exec(span: Span, cells: u32, p: u32) -> (r: i128)
    requires
        span_ok(span),
        1 <= cells <= MAX_RASTER_SIDE,
        p < cells,
    ensures
        r == center2(span, cells as int, p as int),
        -0x8000_0000_0000 <= r <= 0x8000_0000_0000,
{
    proof {
        assert(-0x2000_0000_0000 <= 2 * span.lo * cells <= 0x2000_0000_0000) by (nonlinear_arith)
            requires 1 <= cells <= 0x4000, -0x4000_0000 <= span.lo <= 0x4000_0000;
        assert(0 <= (2 * p + 1) * (span.hi - span.lo) <= 0x4000_0000_0000) by (nonlinear_arith)
            requires 0 <= p < 0x4000, 0 <= span.hi - span.lo <= 0x8000_0000;
    }
    let a = 2 * (span.lo as i128) * (cells as i128);
    let b = (2 * (p as i128) + 1) * ((span.hi as i128) - (span.lo as i128));
    a + b
}

/// Site `i` appears in `order`.
pub open spec fn listed(order: Seq<usize>, i: int) -> bool {
    exists|k: int| 0 <= k < order.len() && order[k] == i
}

/// `order` lists the sites by increasing x coordinate, each site at least once.
pub open spec fn x_sorted(sites: Seq<Site>, order: Seq<usize>) -> bool {
    &&& forall|k: int| 0 <= k < order.len() ==> (#[trigger] order[k] as int) < sites.len()
    &&& forall|i: int| 0 <= i < sites.len() ==> #[trigger] listed(order, i)
    &&& forall|a: int, b: int| 0 <= a <= b < order.len()
        ==> sites[#[trigger] order[a] as int].x <= sites[#[trigger] order[b] as int].x
}

/// The indices of `sites` ordered by x coordinate (insertion sort).
fn sort_by_x(sites: &Vec<Site>) -> (order: Vec<usize>)
    ensures
        x_sorted(sites@, order@),
        order@.len() == sites@.len(),
{
    let n = sites.len();
    let mut order: Vec<usize> = Vec::with_capacity(n);
    let mut i: usize = 0;
    while i < n
        invariant
            n == sites@.len(),
            i <= n,
            order@.len() == i,
            forall|k: int| 0 <= k < order@.len() ==> (#[trigger] order@[k] as int) < i,
            forall|x: int| 0 <= x < i ==> #[trigger] listed(order@, x),
            forall|a: int, b: int| 0 <= a <= b < order@.len()
                ==> sites@[#[trigger] order@[a] as int].x <= sites@[#[trigger] order@[b] as int].x,
        decreases n - i,
    {
        let xi = sites[i].x;
        let mut p: usize = 0;
        while p < order.len() && sites[order[p]].x <= xi
            invariant
                n == sites@.len(),
                i < n,
                xi == sites@[i as int].x,
                order@.len() == i,
                p <= order@.len(),
                forall|k: int| 0 <= k < order@.len() ==> (#[trigger] order@[k] as int) < i,
                forall|k: int| 0 <= k < p ==> sites@[#[trigger] order@[k] as int].x <= xi,
            decreases order@.len() - p,
        {
            p = p + 1;
        }
        let ghost before = order@;
        proof {
            if p < before.len() {
                assert(sites@[before[p as int] as int].x > xi);
            }
        }
        order.insert(p, i);
        proof {
            assert(order@ == before.insert(p as int, i));
            assert forall|k: int| 0 <= k < order@.len() implies (#[trigger] order@[k] as int) < i + 1 by {
                if k < p {
                    assert(order@[k] == before[k]);
                } else if k > p {
                    assert(order@[k] == before[k - 1]);
                }
            }
            assert forall|x: int| 0 <= x < i + 1 implies #[trigger] listed(order@, x) by {
                if x == i {
                    assert(order@[p as int] == i);
                } else {
                    assert(listed(before, x));
                    let k = choose|k: int| 0 <= k < before.len() && before[k] == x;
                    if k < p {
                        assert(order@[k] == x);
                    } else {
                        assert(order@[k + 1] == x);
                    }
                }
            }
            assert forall|a: int, b: int| 0 <= a <= b < order@.len()
                implies sites@[#[trigger] order@[a] as int].x <= sites@[#[trigger] order@[b] as int].x by {
                let oa = if a < p { a } else if a == p { -1 } else { a - 1 };
                let ob = if b < p { b } else if b == p { -1 } else { b - 1 };
                if a != p && b != p {
                    assert(order@[a] == before[oa] && order@[b] == before[ob]);
                    assert(sites@[before[oa] as int].x <= sites@[before[ob] as int].x);
                } else if a == p && b != p {
                    assert(order@[b] == before[ob]);
                    if p < before.len() {
                        assert(sites@[before[p as int] as int].x <= sites@[before[ob] as int].x);
                    }
                } else if a != p && b == p {
                    assert(order@[a] == before[oa]);
                    assert(sites@[before[oa] as int].x <= xi);
                }
            }
        }
        i = i + 1;
    }
    order
}

proof fn lemma_square_scaled_mono(a: int, b: int, hh: int)
    requires
        0 <= a <= b,
        0 <= hh,
    ensures
        a * a * hh <= b * b * hh,
{
    assert(a * a <= b * b) by (nonlinear_arith)
        requires 0 <= a <= b;
    assert(a * a * hh <= b * b * hh) by (nonlinear_arith)
        requires a * a <= b * b, 0 <= hh;
}

/// The part of `pixel_dist` that comes from the x offset alone.
pub open spec fn x_term(xs: Span, w: int, h: int, px: int, s: Site) -> int {
    let dx = center2(xs, w, px) - 2 * w * s.x;
    dx * dx * (h * h)
}

proof fn lemma_x_term_below(xs: Span, ys: Span, w: int, h: int, px: int, py: int, s: Site)
    ensures
        x_term(xs, w, h, px, s) <= pixel_dist(xs, ys, w, h, px, py, s),
{
    let dy = center2(ys, h, py) - 2 * h * s.y;
    assert(dy * dy * (w * w) >= 0) by (nonlinear_arith);
}

fn x_term_exec(xs: Span, w: u32, h: u32, px: u32, s: Site) -> (r: i128)
    requires
        span_ok(xs),
        1 <= w <= MAX_RASTER_SIDE,
        1 <= h <= MAX_RASTER_SIDE,
        px < w,
        -COORD_LIMIT <= s.x <= COORD_LIMIT,
    ensures
        r == x_term(xs, w as int, h as int, px as int, s),
{
    let cx = center2_exec(xs, w, px);
    proof {
        assert(-0x2000_0000_0000 <= 2 * w * s.x <= 0x2000_0000_0000) by (nonlinear_arith)
            requires 1 <= w <= 0x4000, -0x4000_0000 <= s.x <= 0x4000_0000;
    }
    let sx = 2 * (w as i128) * (s.x as i128);
    let dx = cx - sx;
    proof {
        assert(0 <= h * h <= 0x1000_0000) by (nonlinear_arith)
            requires 1 <= h <= 0x4000;
    }
    let hh = (h as i128) * (h as i128);
    proof {
        assert(0 <= dx * dx <= 0x1_0000_0000_0000_0000_0000_0000) by (nonlinear_arith)
            requires -0x1_0000_0000_0000 <= dx <= 0x1_0000_0000_0000;
        assert(0 <= (dx * dx) * hh <= 0x1000_0000_0000_0000_0000_0000_0000_0000) by (nonlinear_arith)
            requires 0 <= dx * dx <= 0x1_0000_0000_0000_0000_0000_0000, 0 <= hh <= 0x1000_0000;
    }
    dx * dx * hh
}

proof fn lemma_key_mono(w: int, a: int, b: int)
    requires
        1 <= w,
        a <= b,
    ensures
        2 * w * a <= 2 * w * b,
{
    assert(2 * w * a <= 2 * w * b) by (nonlinear_arith)
        requires 1 <= w, a <= b;
}

proof fn lemma_offset_square_mono(c: int, near: int, far: int, hh: int)
    requires
        (c <= near <= far) || (far <= near < c),
        0 <= hh,
    ensures
        (c - near) * (c - near) * hh <= (c - far) * (c - far) * hh,
{
    if c <= near {
        assert((c - near) * (c - near) * hh <= (c - far) * (c - far) * hh) by (nonlinear_arith)
            requires c <= near <= far, 0 <= hh;
    } else {
        assert((c - near) * (c - near) * hh <= (c - far) * (c - far) * hh) by (nonlinear_arith)
            requires far <= near < c, 0 <= hh;
    }
}

/// Site `best`, at scaled distance `bd`, is preferred to site `j`.
pub open spec fn beats(xs: Span, ys: Span, w: int, h: int, px: int, py: int, sites: Seq<Site>, best: int, bd: int, j: int) -> bool {
    let dj = pixel_dist(xs, ys, w, h, px, py, sites[j]);
    bd < dj || (bd == dj && best <= j)
}

/// The index of the site nearest to the centre of pixel `(px, py)`, found
/// through the x order: a binary search for the pixel's column, then a scan
/// outward that stops once the x offset alone exceeds the best distance.
fn nearest_site_sorted(sites: &Vec<Site>, order: &Vec<usize>, xs: Span, ys: Span, w: u32, h: u32, px: u32, py: u32) -> (r: usize)
    requires
        sites@.len() >= 1,
        x_sorted(sites@, order@),
        order@.len() == sites@.len(),
        span_ok(xs),
        span_ok(ys),
        1 <= w <= MAX_RASTER_SIDE,
        1 <= h <= MAX_RASTER_SIDE,
        px < w,
        py < h,
        forall|i: int| 0 <= i < sites@.len() ==> -COORD_LIMIT <= (#[trigger] sites@[i]).x <= COORD_LIMIT
            && -COORD_LIMIT <= sites@[i].y <= COORD_LIMIT,
    ensures
        nearest(sites@, xs, ys, w as int, h as int, px as int, py as int, r as int),
{
    let ghost (wi, hi_, pxi, pyi) = (w as int, h as int, px as int, py as int);
    let ghost ss = sites@;
    let ghost od = order@;
    let n = order.len();
    let cx = center2_exec(xs, w, px);
    let mut lo: usize = 0;
    let mut hi: usize = n;
    while lo < hi
        invariant
            n == od.len(),
            n == ss.len(),
            od == order@,
            ss == sites@,
            x_sorted(ss, od),
            1 <= w <= MAX_RASTER_SIDE,
            cx == center2(xs, wi, pxi),
            wi == w,
            lo <= hi <= n,
            forall|i: int| 0 <= i < ss.len() ==> -COORD_LIMIT <= (#[trigger] ss[i]).x <= COORD_LIMIT
                && -COORD_LIMIT <= ss[i].y <= COORD_LIMIT,
            forall|k: int| 0 <= k < lo ==> 2 * wi * ss[#[trigger] od[k] as int].x < cx,
            forall|k: int| hi <= k < n ==> 2 * wi * ss[#[trigger] od[k] as int].x >= cx,
        decreases hi - lo,
    {
        let mid = lo + (hi - lo) / 2;
        let j = order[mid];
        let sx = sites[j].x;
        proof {
            assert(-COORD_LIMIT <= ss[j as int].x <= COORD_LIMIT);
            assert(-0x2000_0000_0000 <= 2 * w * sx <= 0x2000_0000_0000) by (nonlinear_arith)
                requires 1 <= w <= 0x4000, -0x4000_0000 <= sx <= 0x4000_0000;
        }
        let key = 2 * (w as i128) * (sx as i128);
        if key < cx {
            proof {
                assert forall|k: int| 0 <= k < mid + 1 implies 2 * wi * ss[#[trigger] od[k] as int].x < cx by {
                    assert(ss[od[k] as int].x <= ss[od[mid as int] as int].x);
                    lemma_key_mono(wi, ss[od[k] as int].x as int, ss[od[mid as int] as int].x as int);
                }
            }
            lo = mid + 1;
        } else {
            proof {
                assert forall|k: int| mid <= k < n implies 2 * wi * ss[#[trigger] od[k] as int].x >= cx by {
                    assert(ss[od[mid as int] as int].x <= ss[od[k] as int].x);
                    lemma_key_mono(wi, ss[od[mid as int] as int].x as int, ss[od[k] as int].x as int);
                }
            }
            hi = mid;
        }
    }
    let p = lo;
    let mut best: usize = order[0];
    let mut best_d = pixel_dist_exec(xs, ys, w, h, px, py, sites[best]);
    let mut r: usize = p;
    loop
        invariant
            n == od.len(),
            n == ss.len(),
            od == order@,
            ss == sites@,
            x_sorted(ss, od),
            span_ok(xs),
            span_ok(ys),
            1 <= w <= MAX_RASTER_SIDE,
            1 <= h <= MAX_RASTER_SIDE,
            px < w,
            py < h,
            wi == w && hi_ == h && pxi == px && pyi == py,
            forall|i: int| 0 <= i < ss.len() ==> -COORD_LIMIT <= (#[trigger] ss[i]).x <= COORD_LIMIT
                && -COORD_LIMIT <= ss[i].y <= COORD_LIMIT,
            p <= r <= n,
            (best as int) < n,
            best_d == pixel_dist(xs, ys, wi, hi_, pxi, pyi, ss[best as int]),
            forall|k: int| (k == 0 || p <= k < r) && 0 <= k < n
                ==> #[trigger] beats(xs, ys, wi, hi_, pxi, pyi, ss, best as int, best_d as int, od[k] as int),
        ensures
            r < n ==> x_term(xs, wi, hi_, pxi, ss[od[r as int] as int]) > best_d,
        decreases n - r,
    {
        if r >= n {
            break;
        }
        let j = order[r];
        if x_term_exec(xs, w, h, px, sites[j]) > best_d {
            break;
        }
        let d = pixel_dist_exec(xs, ys, w, h, px, py, sites[j]);
        let ghost (ob, obd) = (best, best_d);
        if d < best_d || (d == best_d && j < best) {
            best = j;
            best_d = d;
        }
        proof {
            assert forall|k: int| (k == 0 || p <= k < r + 1) && 0 <= k < n
                implies #[trigger] beats(xs, ys, wi, hi_, pxi, pyi, ss, best as int, best_d as int, od[k] as int) by {
                if k != r {
                    assert(beats(xs, ys, wi, hi_, pxi, pyi, ss, ob as int, obd as int, od[k] as int));
                }
            }
        }
        r = r + 1;
    }
    let mut l: usize = p;
    loop
        invariant
            n == od.len(),
            n == ss.len(),
            od == order@,
            ss == sites@,
            x_sorted(ss, od),
            span_ok(xs),
            span_ok(ys),
            1 <= w <= MAX_RASTER_SIDE,
            1 <= h <= MAX_RASTER_SIDE,
            px < w,
            py < h,
            wi == w && hi_ == h && pxi == px && pyi == py,
            forall|i: int| 0 <= i < ss.len() ==> -COORD_LIMIT <= (#[trigger] ss[i]).x <= COORD_LIMIT
                && -COORD_LIMIT <= ss[i].y <= COORD_LIMIT,
            l <= p <= r <= n,
            (best as int) < n,
            best_d == pixel_dist(xs, ys, wi, hi_, pxi, pyi, ss[best as int]),
            r < n ==> x_term(xs, wi, hi_, pxi, ss[od[r as int] as int]) > best_d,
            forall|k: int| (k == 0 || l <= k < r) && 0 <= k < n
                ==> #[trigger] beats(xs, ys, wi, hi_, pxi, pyi, ss, best as int, best_d as int, od[k] as int),
        ensures
            l > 0 ==> x_term(xs, wi, hi_, pxi, ss[od[l - 1] as int]) > best_d,
        decreases l,
    {
        if l == 0 {
            break;
        }
        let j = order[l - 1];
        if x_term_exec(xs, w, h, px, sites[j]) > best_d {
            break;
        }
        let d = pixel_dist_exec(xs, ys, w, h, px, py, sites[j]);
        let ghost (ob, obd) = (best, best_d);
        if d < best_d || (d == best_d && j < best) {
            best = j;
            best_d = d;
        }
        proof {
            assert forall|k: int| (k == 0 || l - 1 <= k < r) && 0 <= k < n
                implies #[trigger] beats(xs, ys, wi, hi_, pxi, pyi, ss, best as int, best_d as int, od[k] as int) by {
                if k != l - 1 {
                    assert(beats(xs, ys, wi, hi_, pxi, pyi, ss, ob as int, obd as int, od[k] as int));
                }
            }
        }
        l = l - 1;
    }
    proof {
        assert forall|j: int| 0 <= j < ss.len() implies {
            let di = pixel_dist(xs, ys, wi, hi_, pxi, pyi, ss[best as int]);
            let dj = #[trigger] pixel_dist(xs, ys, wi, hi_, pxi, pyi, ss[j]);
            di < dj || (di == dj && best <= j)
        } by {
            assert(listed(od, j));
            let k = choose|k: int| 0 <= k < od.len() && od[k] == j;
            if k == 0 || (l <= k < r) {
                assert(beats(xs, ys, wi, hi_, pxi, pyi, ss, best as int, best_d as int, od[k] as int));
            } else if k >= r {
                let c = center2(xs, wi, pxi);
                assert(ss[od[r as int] as int].x <= ss[od[k] as int].x);
                lemma_key_mono(wi, ss[od[r as int] as int].x as int, ss[od[k] as int].x as int);
                lemma_offset_square_mono(c, 2 * wi * ss[od[r as int] as int].x, 2 * wi * ss[od[k] as int].x, hi_ * hi_);
                lemma_x_term_below(xs, ys, wi, hi_, pxi, pyi, ss[j]);
            } else {
                let c = center2(xs, wi, pxi);
                assert(ss[od[k] as int].x <= ss[od[l - 1] as int].x);
                lemma_key_mono(wi, ss[od[k] as int].x as int, ss[od[l - 1] as int].x as int);
                lemma_offset_square_mono(c, 2 * wi * ss[od[l - 1] as int].x, 2 * wi * ss[od[k] as int].x, hi_ * hi_);
                lemma_x_term_below(xs, ys, wi, hi_, pxi, pyi, ss[j]);
            }
        }
    }
    best
}

/// For each pixel of a `width` x `height` raster laid over `xs` x `ys`, the
/// index of the mesh site nearest to the pixel's centre, row by row from
/// `ys.lo` upward. The sites are ordered by x once, and each pixel searches
/// only the sites whose x offset could beat the best found so far. Fails with `EmptyField` on a mesh without sites and with
/// `DegenerateRange` on an empty span or a raster side out of range.
pub fn sample_nearest(m: &Mesh, xs: Span, ys: Span, width: u32, height: u32) -> (res: Result<Vec<usize>, RasterError>)
    requires
        m.wf(),
        span_ok(xs),
        span_ok(ys),
    ensures
        m.len() == 0 <==> res == Err::<Vec<usize>, RasterError>(RasterError::EmptyField),
        m.len() > 0 ==> ((xs.lo == xs.hi || ys.lo == ys.hi || width == 0 || height == 0
            || width > MAX_RASTER_SIDE || height > MAX_RASTER_SIDE)
            <==> res == Err::<Vec<usize>, RasterError>(RasterError::DegenerateRange)),
        res matches Ok(grid) ==> {
            &&& grid@.len() == width * height
            &&& forall|py: int, px: int| 0 <= py < height && 0 <= px < width ==>
                nearest(m.sites@, xs, ys, width as int, height as int, px, py, #[trigger] grid@[py * width + px] as int)
        },
{
    if m.sites.len() == 0 {
        return Err(RasterError::EmptyField);
    }
    if xs.lo == xs.hi || ys.lo == ys.hi || width == 0 || height == 0 || width > MAX_RASTER_SIDE || height > MAX_RASTER_SIDE {
        return Err(RasterError::DegenerateRange);
    }
    proof {
        assert forall|i: int| 0 <= i < m.sites@.len() implies -COORD_LIMIT <= (#[trigger] m.sites@[i]).x <= COORD_LIMIT
            && -COORD_LIMIT <= m.sites@[i].y <= COORD_LIMIT by {
            assert(-COORD_LIMIT <= m.sites@[i].x <= COORD_LIMIT);
            assert(-COORD_LIMIT <= m.sites@[i].y <= COORD_LIMIT);
        }
    }
    let order = sort_by_x(&m.sites);
    let mut grid: Vec<usize> = Vec::new();
    let mut py: u32 = 0;
    while py < height
        invariant
            m.wf(),
            m.sites@.len() >= 1,
            span_ok(xs),
            span_ok(ys),
            1 <= width <= MAX_RASTER_SIDE,
            1 <= height <= MAX_RASTER_SIDE,
            py <= height,
            x_sorted(m.sites@, order@),
            order@.len() == m.sites@.len(),
            forall|i: int| 0 <= i < m.sites@.len() ==> -COORD_LIMIT <= (#[trigger] m.sites@[i]).x <= COORD_LIMIT
                && -COORD_LIMIT <= m.sites@[i].y <= COORD_LIMIT,
            grid@.len() == py * width,
            forall|qy: int, qx: int| 0 <= qy < py && 0 <= qx < width ==>
                nearest(m.sites@, xs, ys, width as int, height as int, qx, qy, #[trigger] grid@[qy * width + qx] as int),
        decreases height - py,
    {
        let mut px: u32 = 0;
        while px < width
            invariant
                m.wf(),
                m.sites@.len() >= 1,
                span_ok(xs),
                span_ok(ys),
                1 <= width <= MAX_RASTER_SIDE,
                1 <= height <= MAX_RASTER_SIDE,
                py < height,
                px <= width,
                x_sorted(m.sites@, order@),
                order@.len() == m.sites@.len(),
                forall|i: int| 0 <= i < m.sites@.len() ==> -COORD_LIMIT <= (#[trigger] m.sites@[i]).x <= COORD_LIMIT
                    && -COORD_LIMIT <= m.sites@[i].y <= COORD_LIMIT,
                grid@.len() == py * width + px,
                forall|qy: int, qx: int| 0 <= qy < py && 0 <= qx < width ==>
                    nearest(m.sites@, xs, ys, width as int, height as int, qx, qy, #[trigger] grid@[qy * width + qx] as int),
                forall|qx: int| 0 <= qx < px ==>
                    nearest(m.sites@, xs, ys, width as int, height as int, qx, py as int, #[trigger] grid@[py * width + qx] as int),
            decreases width - px,
        {
            let i = nearest_site_sorted(&m.sites, &order, xs, ys, width, height, px, py);
            let ghost before = grid@;
            grid.push(i);
            proof {
                assert forall|qy: int, qx: int| 0 <= qy < py && 0 <= qx < width implies
                    nearest(m.sites@, xs, ys, width as int, height as int, qx, qy, #[trigger] grid@[qy * width + qx] as int) by {
                    assert(qy * width + qx < py * width) by (nonlinear_arith)
                        requires 0 <= qy < py, 0 <= qx < width;
                    assert(grid@[qy * width + qx] == before[qy * width + qx]);
                }
                assert forall|qx: int| 0 <= qx < px + 1 implies
                    nearest(m.sites@, xs, ys, width as int, height as int, qx, py as int, #[trigger] grid@[py * width + qx] as int) by {
                    if qx < px {
                        assert(grid@[py * width + qx] == before[py * width + qx]);
                    }
                }
            }
            px = px + 1;
        }
        proof {
            assert((py + 1) * width == py * width + width) by (nonlinear_arith);
            assert forall|qy: int, qx: int| 0 <= qy < py + 1 && 0 <= qx < width implies
                nearest(m.sites@, xs, ys, width as int, height as int, qx, qy, #[trigger] grid@[qy * width + qx] as int) by {
                if qy == py {
                    assert(nearest(m.sites@, xs, ys, width as int, height as int, qx, py as int, grid@[py * width + qx] as int));
                }
            }
        }
        py = py + 1;
    }
    assert(height * width == width * height) by (nonlinear_arith);
    Ok(grid)
}

/// The smallest and the largest value of a non-empty field, used to
/// normalise values to weights.
pub fn value_bounds(values: &Vec<i64>) -> (r: Option<(i64, i64)>)
    ensures
        values@.len() == 0 <==> r is None,
        r matches Some((lo, hi)) ==> {
            &&& exists|i: int| 0 <= i < values@.len() && values@[i] == lo
            &&& exists|i: int| 0 <= i < values@.len() && values@[i] == hi
            &&& forall|i: int| 0 <= i < values@.len() ==> lo <= #[trigger] values@[i] <= hi
        },
{
    if values.len() == 0 {
        return None;
    }
    let mut lo = values[0];
    let mut hi = values[0];
    let mut i: usize = 1;
    while i < values.len()
        invariant
            1 <= i <= values@.len(),
            exists|k: int| 0 <= k < values@.len() && values@[k] == lo,
            exists|k: int| 0 <= k < values@.len() && values@[k] == hi,
            forall|k: int| 0 <= k < i ==> lo <= #[trigger] values@[k] <= hi,
        decreases values@.len() - i,
    {
        if values[i] < lo {
            lo = values[i];
        }
        if values[i] > hi {
            hi = values[i];
        }
        i = i + 1;
    }
    Some((lo, hi))
}

/// The value each pixel shows: the field's value at the pixel's site.
pub fn sample_values(values: &Vec<i64>, grid: &Vec<usize>) -> (r: Vec<i64>)
    requires
        forall|k: int| 0 <= k < grid@.len() ==> (#[trigger] grid@[k] as int) < values@.len(),
    ensures
        r@.len() == grid@.len(),
        forall|k: int| 0 <= k < grid@.len() ==> #[trigger] r@[k] == values@[grid@[k] as int],
{
    let mut r: Vec<i64> = Vec::with_capacity(grid.len());
    let mut k: usize = 0;
    while k < grid.len()
        invariant
            k <= grid@.len(),
            r@.len() == k,
            forall|j: int| 0 <= j < grid@.len() ==> (#[trigger] grid@[j] as int) < values@.len(),
            forall|j: int| 0 <= j < k ==> #[trigger] r@[j] == values@[grid@[j] as int],
        decreases grid@.len() - k,
    {
        r.push(values[grid[k]]);
        k = k + 1;
    }
    r
}

/// A field that holds one value everywhere shows that value at every pixel,
/// so every pixel gets the same colour.
pub proof fn lemma_constant_field_uniform(values: Seq<i64>, grid: Seq<usize>, shown: Seq<i64>, c: i64)
    requires
        forall|i: int| 0 <= i < values.len() ==> #[trigger] values[i] == c,
        forall|k: int| 0 <= k < grid.len() ==> (#[trigger] grid[k] as int) < values.len(),
        shown.len() == grid.len(),
        forall|k: int| 0 <= k < grid.len() ==> #[trigger] shown[k] == values[grid[k] as int],
    ensures
        forall|k: int| 0 <= k < shown.len() ==> #[trigger] shown[k] == c,
{
    assert forall|k: int| 0 <= k < shown.len() implies #[trigger] shown[k] == c by {
        assert(values[grid[k] as int] == c);
    }
}

} // verus!
