//! Pairwise displacement estimation: a coarse-to-fine grid search for the
//! offset of one raster relative to another that minimises the mean colour
//! mismatch over their overlap.

use vstd::prelude::*;
use vstd::arithmetic::div_mod::lemma_fundamental_div_mod;
use crate::raster::{ImageView, RasterImage, Rgb, Vector};

verus! {

/// Squared scale of a mismatch unit: one channel step is 256 mismatch units.
pub const MISMATCH_SCALE_SQ: u64 = 65536;

/// Bound on the magnitude of an estimated offset coordinate.
pub const OFFSET_BOUND: i64 = 0x8_0000_0000;

/// Upper bound (exclusive) of the mismatch of two samples.
pub const MISMATCH_BOUND: u64 = 0x2_0000;

pub open spec fn sq(v: int) -> int {
    v * v
}

pub open spec fn min(a: int, b: int) -> int {
    if a <= b { a } else { b }
}

pub open spec fn max(a: int, b: int) -> int {
    if a >= b { a } else { b }
}

pub open spec fn abs(a: int) -> int {
    if a >= 0 { a } else { -a }
}

pub open spec fn pow2(e: nat) -> nat
    decreases e,
{
    if e == 0 { 1 } else { 2 * pow2((e - 1) as nat) }
}

/// Squared Euclidean distance of two samples, in channel steps.
pub open spec fn color_distance_sq(p: Rgb, q: Rgb) -> int {
    sq(p.r - q.r) + sq(p.g - q.g) + sq(p.b - q.b)
}

/// `r` is the integer square root of `n`, rounded down.
pub open spec fn is_root(n: int, r: int) -> bool {
    0 <= r && r * r <= n && n < (r + 1) * (r + 1)
}

pub open spec fn root(n: int) -> int {
    choose|r: int| is_root(n, r)
}

pub proof fn lemma_root_unique(n: int, r: int)
    requires
        is_root(n, r),
    ensures
        root(n) == r,
{
    let c = root(n);
    assert(is_root(n, c));
    if c < r {
        assert((c + 1) * (c + 1) <= r * r) by (nonlinear_arith)
            requires 0 <= c < r;
    }
    if r < c {
        assert((r + 1) * (r + 1) <= c * c) by (nonlinear_arith)
            requires 0 <= r < c;
    }
}

/// Mismatch of two samples: their Euclidean colour distance in units of
/// 1/256 channel step, rounded down.
pub open spec fn pixel_mismatch(p: Rgb, q: Rgb) -> int {
    root(MISMATCH_SCALE_SQ * color_distance_sq(p, q))
}

/// Integer square root, rounded down.
pub fn isqrt(n: u64) -> (r: u64)
    requires
        n < 0x100_0000_0000,
    ensures
        is_root(n as int, r as int),
{
    let mut lo: u64 = 0;
    let mut hi: u64 = 0x10_0000;
    assert(0x10_0000 * 0x10_0000 == 0x100_0000_0000);
    while hi - lo > 1
        invariant
            lo < hi <= 0x10_0000,
            lo * lo <= n,
            n < hi * hi,
        decreases hi - lo,
    {
        let mid = lo + (hi - lo) / 2;
        assert(mid * mid <= 0x10_0000 * 0x10_0000) by (nonlinear_arith)
            requires mid <= 0x10_0000;
        if mid * mid <= n {
            lo = mid;
        } else {
            hi = mid;
        }
    }
    assert(hi == lo + 1);
    lo
}

/// Mismatch of two samples, computed.
pub fn mismatch(p: Rgb, q: Rgb) -> (r: u64)
    ensures
        r == pixel_mismatch(p, q),
        r < MISMATCH_BOUND,
{
    let dr = p.r as i64 - q.r as i64;
    let dg = p.g as i64 - q.g as i64;
    let db = p.b as i64 - q.b as i64;
    assert(dr * dr <= 65025 && dr * dr >= 0) by (nonlinear_arith)
        requires -255 <= dr <= 255;
    assert(dg * dg <= 65025 && dg * dg >= 0) by (nonlinear_arith)
        requires -255 <= dg <= 255;
    assert(db * db <= 65025 && db * db >= 0) by (nonlinear_arith)
        requires -255 <= db <= 255;
    let d2 = (dr * dr + dg * dg + db * db) as u64;
    let r = isqrt(MISMATCH_SCALE_SQ * d2);
    proof {
        lemma_root_unique(MISMATCH_SCALE_SQ * color_distance_sq(p, q), r as int);
        if r >= MISMATCH_BOUND {
            assert(r * r >= MISMATCH_BOUND * MISMATCH_BOUND) by (nonlinear_arith)
                requires r >= MISMATCH_BOUND;
        }
    }
    r
}

/// The overlap of two rasters when the second is placed at `(ox, oy)`
/// relative to the first: where it starts in each raster, and its size.
pub struct Overlap {
    pub a_x: int,
    pub a_y: int,
    pub b_x: int,
    pub b_y: int,
    pub width: int,
    pub height: int,
}

pub open spec fn overlap(a: ImageView, b: ImageView, ox: int, oy: int) -> Overlap {
    Overlap {
        a_x: max(0, ox),
        a_y: max(0, oy),
        b_x: max(0, -ox),
        b_y: max(0, -oy),
        width: min(a.width as int, ox + b.width) - max(0, ox),
        height: min(a.height as int, oy + b.height) - max(0, oy),
    }
}

/// Number of samples taken at stride `d` along a side of length `len`.
pub open spec fn samples(len: int, d: int) -> int {
    (len + d - 1) / d
}

/// Sum of the mismatches of the first `k` samples of overlap row `y`.
pub open spec fn row_total(a: ImageView, b: ImageView, ov: Overlap, d: int, y: int, k: nat) -> int
    decreases k,
{
    if k == 0 {
        0
    } else {
        row_total(a, b, ov, d, y, (k - 1) as nat) + pixel_mismatch(
            a.at(ov.a_x + (k - 1) * d, ov.a_y + y),
            b.at(ov.b_x + (k - 1) * d, ov.b_y + y),
        )
    }
}

/// Sum of the mismatches of the first `j` sampled rows of the overlap.
pub open spec fn grid_total(a: ImageView, b: ImageView, ov: Overlap, d: int, nx: nat, j: nat) -> int
    decreases j,
{
    if j == 0 {
        0
    } else {
        grid_total(a, b, ov, d, nx, (j - 1) as nat) + row_total(a, b, ov, d, (j - 1) * d, nx)
    }
}

/// The mismatch over every `d`-th sample of the overlap in both axes, as the
/// sum of the sample mismatches and the number of samples (their exact mean
/// is the first over the second); `None` when the two rasters do not overlap.
pub open spec fn difference(a: ImageView, b: ImageView, ox: int, oy: int, d: int) -> Option<(int, int)> {
    let ov = overlap(a, b, ox, oy);
    if ov.width <= 0 || ov.height <= 0 {
        None
    } else {
        let nx = samples(ov.width, d);
        let ny = samples(ov.height, d);
        Some((grid_total(a, b, ov, d, nx as nat, ny as nat), nx * ny))
    }
}

/// Every sample of the overlap taken at stride `d` is the same colour in both
/// rasters.
pub open spec fn sampled_equal(a: ImageView, b: ImageView, ox: int, oy: int, d: int) -> bool {
    let ov = overlap(a, b, ox, oy);
    forall|i: int, j: int|
        0 <= i < samples(ov.width, d) && 0 <= j < samples(ov.height, d) ==> #[trigger] a.at(
            ov.a_x + i * d,
            ov.a_y + j * d,
        ) == b.at(ov.b_x + i * d, ov.b_y + j * d)
}

/// Mean `s.0 / s.1` is strictly below mean `t.0 / t.1`.
pub open spec fn below(s: (int, int), t: (int, int)) -> bool {
    s.0 * t.1 < t.0 * s.1
}

/// Scale of a cost: one mismatch unit is `COST_SCALE` cost units.
pub const COST_SCALE: u128 = 65536;

/// The cost of a mean mismatch `total / count`, in units of
/// 1 / (256 * `COST_SCALE`) channel step, rounded up: zero only for a mean of
/// zero.
pub open spec fn cost_of(total: int, count: int) -> int {
    (total * COST_SCALE + count - 1) / count
}

/// A mean mismatch, kept exact: the sum of the sample mismatches and the
/// number of samples.
#[derive(Clone, Copy, Debug, PartialEq, Eq, Structural)]
pub struct Score {
    pub total: u128,
    pub samples: u64,
}

impl Score {
    pub open spec fn wf(&self) -> bool {
        self.samples >= 1 && self.total <= self.samples * MISMATCH_BOUND
    }

    pub open spec fn pair(&self) -> (int, int) {
        (self.total as int, self.samples as int)
    }

    /// The mean of `self` is strictly below that of `other`.
    pub fn below(&self, other: &Score) -> (r: bool)
        requires
            self.wf(),
            other.wf(),
        ensures
            r == below(self.pair(), other.pair()),
    {
        let q1 = self.total / self.samples as u128;
        let r1 = self.total % self.samples as u128;
        let q2 = other.total / other.samples as u128;
        let r2 = other.total % other.samples as u128;
        let c1 = self.samples as u128;
        let c2 = other.samples as u128;
        proof {
            lemma_fundamental_div_mod(self.total as int, c1 as int);
            lemma_fundamental_div_mod(other.total as int, c2 as int);
            lemma_compare_means(self.total as int, c1 as int, other.total as int, c2 as int);
        }
        assert(r1 * c2 < 0x1_0000_0000_0000_0000 * 0x1_0000_0000_0000_0000) by (nonlinear_arith)
            requires r1 < c1, c1 <= u64::MAX, c2 <= u64::MAX;
        assert(r2 * c1 < 0x1_0000_0000_0000_0000 * 0x1_0000_0000_0000_0000) by (nonlinear_arith)
            requires r2 < c2, c1 <= u64::MAX, c2 <= u64::MAX;
        if q1 != q2 {
            q1 < q2
        } else {
            r1 * c2 < r2 * c1
        }
    }

    /// The cost of this mean, rounded up.
    pub fn cost(&self) -> (r: u64)
        requires
            self.wf(),
        ensures
            r == cost_of(self.total as int, self.samples as int),
            r == 0 <==> self.total == 0,
    {
        let c = self.samples as u128;
        let t = self.total;
        assert(t * COST_SCALE <= c * MISMATCH_BOUND * COST_SCALE) by (nonlinear_arith)
            requires t <= c * MISMATCH_BOUND;
        assert(c * MISMATCH_BOUND * COST_SCALE <= 0x1_0000_0000_0000_0000 * MISMATCH_BOUND * COST_SCALE)
            by (nonlinear_arith)
            requires c <= 0x1_0000_0000_0000_0000;
        let n = t * COST_SCALE + c - 1;
        proof {
            assert(n / c <= MISMATCH_BOUND * COST_SCALE + 1) by (nonlinear_arith)
                requires n == t * COST_SCALE + c - 1, t <= c * MISMATCH_BOUND, c >= 1;
            if t == 0 {
                assert(n / c == 0) by (nonlinear_arith)
                    requires n == c - 1, c >= 1;
            } else {
                assert(n / c >= 1) by (nonlinear_arith)
                    requires n == t * COST_SCALE + c - 1, t >= 1, c >= 1;
            }
        }
        (n / c) as u64
    }
}

/// Comparing two means by their quotients, then by their remainders, is
/// comparing them exactly.
proof fn lemma_compare_means(t1: int, c1: int, t2: int, c2: int)
    requires
        t1 >= 0,
        t2 >= 0,
        c1 >= 1,
        c2 >= 1,
    ensures
        t1 / c1 < t2 / c2 ==> t1 * c2 < t2 * c1,
        t1 / c1 > t2 / c2 ==> !(t1 * c2 < t2 * c1),
        t1 / c1 == t2 / c2 ==> (t1 * c2 < t2 * c1 <==> (t1 % c1) * c2 < (t2 % c2) * c1),
{
    lemma_fundamental_div_mod(t1, c1);
    lemma_fundamental_div_mod(t2, c2);
    let q1 = t1 / c1;
    let q2 = t2 / c2;
    let r1 = t1 % c1;
    let r2 = t2 % c2;
    assert(t1 * c2 == q1 * c1 * c2 + r1 * c2) by (nonlinear_arith)
        requires t1 == c1 * q1 + r1;
    assert(t2 * c1 == q2 * c1 * c2 + r2 * c1) by (nonlinear_arith)
        requires t2 == c2 * q2 + r2;
    assert(0 <= r1 * c2 < c1 * c2) by (nonlinear_arith)
        requires 0 <= r1 < c1, c2 >= 1;
    assert(0 <= r2 * c1 < c1 * c2) by (nonlinear_arith)
        requires 0 <= r2 < c2, c1 >= 1;
    if q1 < q2 {
        assert(q1 * c1 * c2 + c1 * c2 <= q2 * c1 * c2) by (nonlinear_arith)
            requires q1 < q2, c1 >= 1, c2 >= 1;
    }
    if q1 > q2 {
        assert(q2 * c1 * c2 + c1 * c2 <= q1 * c1 * c2) by (nonlinear_arith)
            requires q1 > q2, c1 >= 1, c2 >= 1;
    }
}

pub open spec fn score_of(r: Option<Score>) -> Option<(int, int)> {
    match r {
        Some(s) => Some(s.pair()),
        None => None,
    }
}

proof fn lemma_samples_bounds(n: int, d: int)
    requires
        d >= 1,
        n >= 1,
    ensures
        1 <= samples(n, d) <= n,
{
    let q = (n + d - 1) / d;
    lemma_fundamental_div_mod(n + d - 1, d);
    assert(q <= n) by (nonlinear_arith)
        requires d >= 1, n >= 1, d * q + (n + d - 1) % d == n + d - 1, (n + d - 1) % d >= 0;
    assert(q >= 1) by (nonlinear_arith)
        requires d >= 1, n >= 1, d * q + (n + d - 1) % d == n + d - 1, (n + d - 1) % d < d;
}

proof fn lemma_sample_in_range(k: int, n: int, d: int)
    requires
        d >= 1,
        n >= 1,
        0 <= k < samples(n, d),
    ensures
        0 <= k * d < n,
{
    let q = (n + d - 1) / d;
    lemma_fundamental_div_mod(n + d - 1, d);
    assert((k + 1) * d <= q * d) by (nonlinear_arith)
        requires 0 <= k, k + 1 <= q, d >= 1;
    assert(k * d < n) by (nonlinear_arith)
        requires (k + 1) * d <= q * d, d * q + (n + d - 1) % d == n + d - 1, (n + d - 1) % d >= 0;
    assert(0 <= k * d) by (nonlinear_arith)
        requires 0 <= k, d >= 1;
}

/// Colour mismatch between `a` and `b` placed at `offset` relative to `a`,
/// over every `density`-th sample of their overlap in both axes. Its total is
/// zero exactly when every sampled pair is equal.
pub fn image_difference(a: &RasterImage, b: &RasterImage, offset: Vector, density: u32) -> (r: Option<Score>)
    requires
        a.wf(),
        b.wf(),
        density >= 1,
    ensures
        score_of(r) == difference(a@, b@, offset.x as int, offset.y as int, density as int),
        r matches Some(s) ==> s.wf() && (s.total == 0 <==> sampled_equal(
            a@,
            b@,
            offset.x as int,
            offset.y as int,
            density as int,
        )),
{
    let ox = offset.x as i128;
    let oy = offset.y as i128;
    let ax: i128 = if ox > 0 { ox } else { 0 };
    let ay: i128 = if oy > 0 { oy } else { 0 };
    let bx: i128 = if ox < 0 { -ox } else { 0 };
    let by: i128 = if oy < 0 { -oy } else { 0 };
    let right: i128 = if (a.width as i128) < ox + b.width as i128 { a.width as i128 } else { ox + b.width as i128 };
    let bottom: i128 = if (a.height as i128) < oy + b.height as i128 { a.height as i128 } else { oy + b.height as i128 };
    let w = right - ax;
    let h = bottom - ay;
    let ghost ov = overlap(a@, b@, offset.x as int, offset.y as int);
    if w <= 0 || h <= 0 {
        return None;
    }
    let d = density as u64;
    let w = w as u64;
    let h = h as u64;
    let nx: u64 = (w + d - 1) / d;
    let ny: u64 = (h + d - 1) / d;
    proof {
        lemma_samples_bounds(w as int, d as int);
        lemma_samples_bounds(h as int, d as int);
        crate::raster::lemma_mul_bounded(nx as int, ny as int, 0x1_0000_0000);
    }
    let ax = ax as u64;
    let ay = ay as u64;
    let bx = bx as u64;
    let by = by as u64;
    let mut total: u128 = 0;
    let mut j: u64 = 0;
    while j < ny
        invariant
            a.wf(),
            b.wf(),
            d >= 1,
            j <= ny,
            ov == overlap(a@, b@, offset.x as int, offset.y as int),
            ov.a_x == ax && ov.a_y == ay && ov.b_x == bx && ov.b_y == by,
            ov.width == w && ov.height == h,
            w >= 1 && h >= 1,
            ax + w <= a.width && bx + w <= b.width,
            ay + h <= a.height && by + h <= b.height,
            nx == samples(w as int, d as int),
            ny == samples(h as int, d as int),
            nx <= w && ny <= h,
            nx >= 1 && ny >= 1,
            total == grid_total(a@, b@, ov, d as int, nx as nat, j as nat),
            total <= j * nx * MISMATCH_BOUND,
        decreases ny - j,
    {
        proof {
            lemma_sample_in_range(j as int, h as int, d as int);
        }
        let y = j * d;
        let mut row: u128 = 0;
        let mut k: u64 = 0;
        while k < nx
            invariant
                a.wf(),
                b.wf(),
                d >= 1,
                k <= nx,
                y < h,
                y == j * d,
                ov.a_x == ax && ov.a_y == ay && ov.b_x == bx && ov.b_y == by,
                ov.width == w && ov.height == h,
                w >= 1,
                ax + w <= a.width && bx + w <= b.width,
                ay + h <= a.height && by + h <= b.height,
                nx == samples(w as int, d as int),
                nx <= w,
                row == row_total(a@, b@, ov, d as int, y as int, k as nat),
                row <= k * MISMATCH_BOUND,
            decreases nx - k,
        {
            proof {
                lemma_sample_in_range(k as int, w as int, d as int);
            }
            let x = k * d;
            let p = a.get_pixel((ax + x) as u32, (ay + y) as u32);
            let q = b.get_pixel((bx + x) as u32, (by + y) as u32);
            let m = mismatch(p, q);
            row = row + m as u128;
            k = k + 1;
        }
        proof {
            assert((j + 1) * nx * MISMATCH_BOUND == j * nx * MISMATCH_BOUND + nx * MISMATCH_BOUND)
                by (nonlinear_arith);
            assert(j * nx * MISMATCH_BOUND <= 0x1_0000_0000 * 0x1_0000_0000 * MISMATCH_BOUND)
                by (nonlinear_arith)
                requires j < 0x1_0000_0000, nx < 0x1_0000_0000;
        }
        total = total + row;
        j = j + 1;
    }
    let n = nx * ny;
    proof {
        assert(j * nx * MISMATCH_BOUND == n * MISMATCH_BOUND && n >= 1) by (nonlinear_arith)
            requires j == ny, n == nx * ny, nx >= 1, ny >= 1;
        lemma_total_zero_iff_equal(a@, b@, offset.x as int, offset.y as int, d as int);
    }
    Some(Score { total, samples: n })
}

/// The best candidate so far: its offset, and the total and count of its
/// mismatch.
pub open spec fn lift(best: Option<(i64, i64, Score)>) -> Option<(int, int, int, int)> {
    match best {
        Some(c) => Some((c.0 as int, c.1 as int, c.2.total as int, c.2.samples as int)),
        None => None,
    }
}

pub open spec fn within(best: Option<(i64, i64, Score)>, lim: int) -> bool {
    best matches Some(c) ==> abs(c.0 as int) <= lim && abs(c.1 as int) <= lim && c.2.wf()
}

/// Takes the candidate offset `(x, y)`, scored at stride `g`, in place of
/// `best` when it overlaps and its mean mismatch is strictly lower.
pub open spec fn consider(
    a: ImageView,
    b: ImageView,
    best: Option<(int, int, int, int)>,
    x: int,
    y: int,
    g: int,
) -> Option<(int, int, int, int)> {
    match difference(a, b, x, y, g) {
        None => best,
        Some(s) => match best {
            None => Some((x, y, s.0, s.1)),
            Some(c) => if below(s, (c.2, c.3)) { Some((x, y, s.0, s.1)) } else { best },
        },
    }
}

/// Considers, in order, the first `k` candidates `(x, y0 + i * g)`.
pub open spec fn scan_column(
    a: ImageView,
    b: ImageView,
    best: Option<(int, int, int, int)>,
    x: int,
    y0: int,
    g: int,
    k: nat,
) -> Option<(int, int, int, int)>
    decreases k,
{
    if k == 0 {
        best
    } else {
        consider(a, b, scan_column(a, b, best, x, y0, g, (k - 1) as nat), x, y0 + (k - 1) * g, g)
    }
}

/// Considers the first `j` columns of the window of `j x ny` candidates
/// starting at `(x0, y0)` with stride `g`, column by column.
pub open spec fn scan_window(
    a: ImageView,
    b: ImageView,
    best: Option<(int, int, int, int)>,
    x0: int,
    y0: int,
    g: int,
    ny: nat,
    j: nat,
) -> Option<(int, int, int, int)>
    decreases j,
{
    if j == 0 {
        best
    } else {
        scan_column(a, b, scan_window(a, b, best, x0, y0, g, ny, (j - 1) as nat), x0 + (j - 1) * g, y0, g, ny)
    }
}

/// The exponent of the first search stride: `floor(log2(m / 16))`, and 0
/// when that is not positive.
pub open spec fn coarse_exponent(m: nat) -> nat
    decreases m,
{
    if m < 32 { 0 } else { 1 + coarse_exponent(m / 2) }
}

/// The `e` finer rounds: each rescans, at half the previous stride `g`, the
/// 4 x 4 candidates `best - 2g .. best + g` and keeps the best one.
pub open spec fn refine(a: ImageView, b: ImageView, best: Option<(int, int, int, int)>, e: nat) -> Option<(int, int, int, int)>
    decreases e,
{
    if e == 0 {
        best
    } else {
        match best {
            None => None,
            Some(c) => {
                let g = pow2((e - 1) as nat) as int;
                refine(
                    a,
                    b,
                    scan_window(a, b, consider(a, b, None, c.0, c.1, g), c.0 - 2 * g, c.1 - 2 * g, g, 4, 4),
                    (e - 1) as nat,
                )
            },
        }
    }
}

/// First coordinate of the first window: the largest multiple of `g` not
/// above minus half the smaller side.
pub open spec fn window_start(sa: int, sb: int, g: int) -> int {
    -((min(sa, sb) / 2) / g * g)
}

/// Number of candidates of the first window along one axis: the multiples of
/// `g` from `window_start` up to the larger side minus half the smaller one.
pub open spec fn window_count(sa: int, sb: int, g: int) -> int {
    samples(max(sa, sb) - min(sa, sb) / 2 - window_start(sa, sb, g), g)
}

/// The estimated offset of `b` relative to `a` and its mean mismatch, or
/// `None` when no candidate offset makes the rasters overlap. The first round
/// scans the whole first window at the coarsest stride, seeded with the zero
/// offset; each later round halves the stride around the best so far. A
/// candidate replaces the best only when it scores strictly lower.
pub open spec fn displacement(a: ImageView, b: ImageView) -> Option<(int, int, int, int)> {
    let r = coarse_exponent(min(min(a.width as int, a.height as int), min(b.width as int, b.height as int)) as nat);
    let g = pow2(r) as int;
    let x0 = window_start(a.width as int, b.width as int, g);
    let y0 = window_start(a.height as int, b.height as int, g);
    let nx = window_count(a.width as int, b.width as int, g);
    let ny = window_count(a.height as int, b.height as int, g);
    refine(a, b, scan_window(a, b, consider(a, b, None, 0, 0, g), x0, y0, g, ny as nat, nx as nat), r)
}

fn consider_candidate(
    a: &RasterImage,
    b: &RasterImage,
    best: Option<(i64, i64, Score)>,
    x: i64,
    y: i64,
    g: u32,
) -> (r: Option<(i64, i64, Score)>)
    requires
        a.wf(),
        b.wf(),
        g >= 1,
        best matches Some(c) ==> c.2.wf(),
    ensures
        lift(r) == consider(a@, b@, lift(best), x as int, y as int, g as int),
        r == best || (r matches Some(c) && c.0 == x && c.1 == y && c.2.wf()),
{
    match image_difference(a, b, Vector { x, y }, g) {
        None => best,
        Some(s) => match best {
            None => Some((x, y, s)),
            Some(c) => if s.below(&c.2) { Some((x, y, s)) } else { best },
        },
    }
}

fn scan(
    a: &RasterImage,
    b: &RasterImage,
    best: Option<(i64, i64, Score)>,
    x0: i64,
    y0: i64,
    g: u32,
    nx: u64,
    ny: u64,
) -> (r: Option<(i64, i64, Score)>)
    requires
        a.wf(),
        b.wf(),
        g >= 1,
        abs(x0 as int) + nx * g <= 0x10_0000_0000,
        abs(y0 as int) + ny * g <= 0x10_0000_0000,
        best matches Some(c) ==> c.2.wf(),
    ensures
        r matches Some(c) ==> c.2.wf(),
        lift(r) == scan_window(a@, b@, lift(best), x0 as int, y0 as int, g as int, ny as nat, nx as nat),
        forall|l: int|
            within(best, l) && abs(x0 as int) + nx * g <= l && abs(y0 as int) + ny * g <= l
                ==> within(r, l),
{
    let mut cur = best;
    let mut i: u64 = 0;
    while i < nx
        invariant
            a.wf(),
            b.wf(),
            g >= 1,
            i <= nx,
            abs(x0 as int) + nx * g <= 0x10_0000_0000,
            abs(y0 as int) + ny * g <= 0x10_0000_0000,
            cur matches Some(c) ==> c.2.wf(),
            lift(cur) == scan_window(a@, b@, lift(best), x0 as int, y0 as int, g as int, ny as nat, i as nat),
            forall|l: int|
                within(best, l) && abs(x0 as int) + nx * g <= l && abs(y0 as int) + ny * g <= l
                    ==> within(cur, l),
        decreases nx - i,
    {
        assert(i * g < nx * g) by (nonlinear_arith)
            requires i < nx, g >= 1;
        let x = x0 + (i * g as u64) as i64;
        let ghost before = cur;
        let mut k: u64 = 0;
        while k < ny
            invariant
                a.wf(),
                b.wf(),
                g >= 1,
                k <= ny,
                abs(y0 as int) + ny * g <= 0x10_0000_0000,
                abs(x as int) < abs(x0 as int) + nx * g,
                cur matches Some(c) ==> c.2.wf(),
                lift(cur) == scan_column(a@, b@, lift(before), x as int, y0 as int, g as int, k as nat),
                forall|l: int|
                    within(before, l) && abs(x0 as int) + nx * g <= l && abs(y0 as int) + ny * g <= l
                        ==> within(cur, l),
            decreases ny - k,
        {
            assert(k * g < ny * g) by (nonlinear_arith)
                requires k < ny, g >= 1;
            let y = y0 + (k * g as u64) as i64;
            cur = consider_candidate(a, b, cur, x, y, g);
            k = k + 1;
        }
        i = i + 1;
    }
    cur
}

/// An estimated offset of one raster relative to another, with the cost of
/// its mean mismatch (lower is better).
#[derive(Clone, Copy, Debug, PartialEq, Eq, Structural)]
pub struct Displacement {
    pub offset: Vector,
    pub cost: u64,
}

pub open spec fn displacement_of(r: Option<Displacement>) -> Option<(int, int, int)> {
    match r {
        Some(d) => Some((d.offset.x as int, d.offset.y as int, d.cost as int)),
        None => None,
    }
}

/// An estimate as reported: the offset, and the cost of its mean mismatch.
pub open spec fn reported(e: Option<(int, int, int, int)>) -> Option<(int, int, int)> {
    match e {
        Some(c) => Some((c.0, c.1, cost_of(c.2, c.3))),
        None => None,
    }
}

proof fn lemma_samples_cover(n: int, d: int)
    requires
        d >= 1,
        n >= 0,
    ensures
        0 <= samples(n, d),
        samples(n, d) * d <= n + d - 1,
{
    lemma_fundamental_div_mod(n + d - 1, d);
    let q = (n + d - 1) / d;
    assert(q >= 0 && q * d <= n + d - 1) by (nonlinear_arith)
        requires d >= 1, n >= 0, d * q + (n + d - 1) % d == n + d - 1, (n + d - 1) % d >= 0,
            (n + d - 1) % d < d;
}

proof fn lemma_pow2_positive(e: nat)
    ensures
        pow2(e) >= 1,
    decreases e,
{
    if e > 0 {
        lemma_pow2_positive((e - 1) as nat);
    }
}

/// The first window along one axis, computed: its start and its number of
/// candidates.
fn first_window(sa: u32, sb: u32, g: u64) -> (r: (i64, u64))
    requires
        1 <= g <= 0x1000_0000,
    ensures
        r.0 == window_start(sa as int, sb as int, g as int),
        r.1 == window_count(sa as int, sb as int, g as int),
        abs(r.0 as int) + r.1 * g <= 0x4_0000_0000,
{
    let lo = if sa <= sb { sa } else { sb };
    let hi = if sa <= sb { sb } else { sa };
    let half = (lo / 2) as u64;
    let q = half / g;
    assert(q * g <= half) by (nonlinear_arith)
        requires q == half / g, g >= 1;
    let start: i64 = -((q * g) as i64);
    let len: u64 = (hi as u64 - half) + q * g;
    proof {
        lemma_samples_cover(len as int, g as int);
    }
    let count: u64 = (len + g - 1) / g;
    (start, count)
}

/// Estimates the offset of `b` relative to `a` that minimises the mean
/// colour mismatch over their overlap, by a coarse-to-fine grid search, and
/// returns it with the cost of its mean mismatch at full sampling density,
/// rounded up. Candidates are compared by their exact means. `None` exactly
/// when no candidate makes the rasters overlap (a raster without samples).
pub fn estimate_displacement(a: &RasterImage, b: &RasterImage) -> (r: Option<Displacement>)
    requires
        a.wf(),
        b.wf(),
    ensures
        displacement_of(r) == reported(displacement(a@, b@)),
        r matches Some(d) ==> abs(d.offset.x as int) <= OFFSET_BOUND && abs(d.offset.y as int) <= OFFSET_BOUND,
{
    let min_a = if a.width <= a.height { a.width } else { a.height };
    let min_b = if b.width <= b.height { b.width } else { b.height };
    let m: u64 = if min_a <= min_b { min_a as u64 } else { min_b as u64 };
    let ghost m0 = m as nat;
    let mut rem: u64 = m;
    let mut e: u64 = 0;
    let mut g: u64 = 1;
    while rem >= 32
        invariant
            coarse_exponent(m0) == e + coarse_exponent(rem as nat),
            g == pow2(e as nat),
            g * rem <= m0,
            m0 < 0x1_0000_0000,
            rem <= m0,
            e < g,
            g == 1 || rem >= 16,
            g >= 1,
        decreases rem,
    {
        assert(g * 32 <= g * rem) by (nonlinear_arith)
            requires rem >= 32, g >= 1;
        assert(2 * g * (rem / 2) <= g * rem) by (nonlinear_arith)
            requires g >= 1, rem >= 0;
        rem = rem / 2;
        e = e + 1;
        g = g * 2;
    }
    assert(g <= 0x1000_0000) by (nonlinear_arith)
        requires g * rem <= m0, m0 < 0x1_0000_0000, g >= 1, rem >= 16 || g == 1;
    let (x0, nx) = first_window(a.width, b.width, g);
    let (y0, ny) = first_window(a.height, b.height, g);
    let seed = consider_candidate(a, b, None, 0, 0, g as u32);
    let mut best = scan(a, b, seed, x0, y0, g as u32, nx, ny);
    let ghost g0 = g;
    let mut rounds = e;
    let mut stride = g;
    assert(within(best, 0x4_0000_0000));
    while rounds > 0
        invariant
            refine(a@, b@, lift(best), rounds as nat) == displacement(a@, b@),
            stride == pow2(rounds as nat),
            1 <= stride <= g0 <= 0x1000_0000,
            within(best, 0x4_0000_0000 + 12 * (g0 - stride)),
            a.wf(),
            b.wf(),
        decreases rounds,
    {
        match best {
            None => {
                return None;
            },
            Some(c) => {
                let half = stride / 2;
                assert(half == pow2((rounds - 1) as nat));
                proof {
                    lemma_pow2_positive((rounds - 1) as nat);
                }
                let seed = consider_candidate(a, b, None, c.0, c.1, half as u32);
                let step = 2 * half as i64;
                best = scan(a, b, seed, c.0 - step, c.1 - step, half as u32, 4, 4);
                rounds = rounds - 1;
                stride = half;
            },
        }
    }
    match best {
        Some(c) => Some(Displacement { offset: Vector { x: c.0, y: c.1 }, cost: c.2.cost() }),
        None => None,
    }
}

pub proof fn lemma_root_exists(n: int)
    requires
        n >= 0,
    ensures
        is_root(n, root(n)),
    decreases n,
{
    if n == 0 {
        assert(is_root(0, 0));
    } else {
        lemma_root_exists(n - 1);
        let r = root(n - 1);
        if n < (r + 1) * (r + 1) {
            assert(is_root(n, r));
        } else {
            assert(is_root(n, r + 1)) by (nonlinear_arith)
                requires r >= 0, n == (r + 1) * (r + 1);
        }
    }
}

/// The mismatch of two samples is never negative, and is zero exactly when
/// they are equal.
pub proof fn lemma_pixel_mismatch_zero(p: Rgb, q: Rgb)
    ensures
        pixel_mismatch(p, q) >= 0,
        pixel_mismatch(p, q) == 0 <==> p == q,
{
    let dsq = color_distance_sq(p, q);
    assert(sq(p.r - q.r) >= 0 && sq(p.g - q.g) >= 0 && sq(p.b - q.b) >= 0) by (nonlinear_arith);
    lemma_root_exists(MISMATCH_SCALE_SQ * dsq);
    if p == q {
        lemma_root_unique(0, 0);
    } else {
        if p.r != q.r {
            assert(sq(p.r - q.r) >= 1) by (nonlinear_arith)
                requires p.r != q.r;
        } else if p.g != q.g {
            assert(sq(p.g - q.g) >= 1) by (nonlinear_arith)
                requires p.g != q.g;
        } else {
            assert(p.b != q.b);
            assert(sq(p.b - q.b) >= 1) by (nonlinear_arith)
                requires p.b != q.b;
        }
        assert(dsq >= 1);
        let n = MISMATCH_SCALE_SQ * dsq;
        let r = root(n);
        assert(is_root(n, r));
        assert(r != 0) by {
            if r == 0 {
                assert(n < 1) by (nonlinear_arith)
                    requires r == 0, n < (r + 1) * (r + 1);
            }
        }
    }
}

/// Row sums are never negative, and are zero exactly when every pair in the
/// row is equal.
proof fn lemma_row_total_zero(a: ImageView, b: ImageView, ov: Overlap, d: int, y: int, k: nat)
    ensures
        row_total(a, b, ov, d, y, k) >= 0,
        row_total(a, b, ov, d, y, k) == 0 <==> forall|i: int|
            0 <= i < k ==> #[trigger] a.at(ov.a_x + i * d, ov.a_y + y) == b.at(ov.b_x + i * d, ov.b_y + y),
    decreases k,
{
    if k > 0 {
        lemma_row_total_zero(a, b, ov, d, y, (k - 1) as nat);
        let i0 = k - 1;
        lemma_pixel_mismatch_zero(a.at(ov.a_x + i0 * d, ov.a_y + y), b.at(ov.b_x + i0 * d, ov.b_y + y));
        if row_total(a, b, ov, d, y, k) == 0 {
            assert forall|i: int| 0 <= i < k implies #[trigger] a.at(ov.a_x + i * d, ov.a_y + y) == b.at(
                ov.b_x + i * d,
                ov.b_y + y,
            ) by {
                if i < k - 1 {
                    assert(a.at(ov.a_x + i * d, ov.a_y + y) == b.at(ov.b_x + i * d, ov.b_y + y));
                }
            }
        }
    }
}

/// Grid sums are never negative, and are zero exactly when every sampled
/// pair of the first `j` rows is equal.
proof fn lemma_grid_total_zero(a: ImageView, b: ImageView, ov: Overlap, d: int, nx: nat, j: nat)
    ensures
        grid_total(a, b, ov, d, nx, j) >= 0,
        grid_total(a, b, ov, d, nx, j) == 0 <==> forall|i: int, jj: int|
            0 <= i < nx && 0 <= jj < j ==> #[trigger] a.at(ov.a_x + i * d, ov.a_y + jj * d) == b.at(
                ov.b_x + i * d,
                ov.b_y + jj * d,
            ),
    decreases j,
{
    if j > 0 {
        lemma_grid_total_zero(a, b, ov, d, nx, (j - 1) as nat);
        lemma_row_total_zero(a, b, ov, d, (j - 1) * d, nx);
        let y = (j - 1) * d;
        if grid_total(a, b, ov, d, nx, j) == 0 {
            assert forall|i: int, jj: int| 0 <= i < nx && 0 <= jj < j implies #[trigger] a.at(
                ov.a_x + i * d,
                ov.a_y + jj * d,
            ) == b.at(ov.b_x + i * d, ov.b_y + jj * d) by {
                if jj == j - 1 {
                    assert(a.at(ov.a_x + i * d, ov.a_y + y) == b.at(ov.b_x + i * d, ov.b_y + y));
                } else {
                    assert(a.at(ov.a_x + i * d, ov.a_y + jj * d) == b.at(ov.b_x + i * d, ov.b_y + jj * d));
                }
            }
        } else if forall|i: int, jj: int|
            0 <= i < nx && 0 <= jj < j ==> #[trigger] a.at(ov.a_x + i * d, ov.a_y + jj * d) == b.at(
                ov.b_x + i * d,
                ov.b_y + jj * d,
            ) {
            assert forall|i: int| 0 <= i < nx implies #[trigger] a.at(ov.a_x + i * d, ov.a_y + y) == b.at(
                ov.b_x + i * d,
                ov.b_y + y,
            ) by {
                assert(a.at(ov.a_x + i * d, ov.a_y + (j - 1) * d) == b.at(ov.b_x + i * d, ov.b_y + (j - 1) * d));
            }
            assert forall|i: int, jj: int| 0 <= i < nx && 0 <= jj < j - 1 implies #[trigger] a.at(
                ov.a_x + i * d,
                ov.a_y + jj * d,
            ) == b.at(ov.b_x + i * d, ov.b_y + jj * d) by {}
        }
    }
}

/// The mismatch total is zero exactly when every sampled pair is equal.
pub proof fn lemma_total_zero_iff_equal(a: ImageView, b: ImageView, ox: int, oy: int, d: int)
    requires
        d >= 1,
    ensures
        difference(a, b, ox, oy, d) matches Some(s) ==> s.0 >= 0 && s.1 >= 1 && (s.0 == 0 <==> sampled_equal(
            a,
            b,
            ox,
            oy,
            d,
        )),
{
    let ov = overlap(a, b, ox, oy);
    if ov.width > 0 && ov.height > 0 {
        let nx = samples(ov.width, d);
        let ny = samples(ov.height, d);
        lemma_samples_bounds(ov.width, d);
        lemma_samples_bounds(ov.height, d);
        lemma_grid_total_zero(a, b, ov, d, nx as nat, ny as nat);
        assert(nx * ny >= 1) by (nonlinear_arith)
            requires nx >= 1, ny >= 1;
    }
}

/// No mismatch total is negative, and every count is positive.
pub proof fn lemma_difference_nonneg(a: ImageView, b: ImageView, ox: int, oy: int, d: int)
    requires
        d >= 1,
    ensures
        difference(a, b, ox, oy, d) matches Some(s) ==> s.0 >= 0 && s.1 >= 1,
{
    lemma_total_zero_iff_equal(a, b, ox, oy, d);
}

proof fn lemma_zero_offset_self(a: ImageView, d: int)
    requires
        d >= 1,
        a.width >= 1,
        a.height >= 1,
    ensures
        difference(a, a, 0, 0, d) matches Some(s) && s.0 == 0 && s.1 >= 1,
{
    lemma_total_zero_iff_equal(a, a, 0, 0, d);
}

proof fn lemma_scan_column_keeps_zero(a: ImageView, b: ImageView, c: int, x: int, y0: int, g: int, k: nat)
    requires
        g >= 1,
        c >= 1,
    ensures
        scan_column(a, b, Some((0int, 0int, 0int, c)), x, y0, g, k) == Some((0int, 0int, 0int, c)),
    decreases k,
{
    if k > 0 {
        lemma_scan_column_keeps_zero(a, b, c, x, y0, g, (k - 1) as nat);
        lemma_difference_nonneg(a, b, x, y0 + (k - 1) * g, g);
        if let Some(s) = difference(a, b, x, y0 + (k - 1) * g, g) {
            assert(s.0 * c >= 0) by (nonlinear_arith)
                requires s.0 >= 0, c >= 1;
            assert(0 * s.1 == 0);
            assert(!below(s, (0int, c)));
        }
    }
}

proof fn lemma_scan_window_keeps_zero(a: ImageView, b: ImageView, c: int, x0: int, y0: int, g: int, ny: nat, j: nat)
    requires
        g >= 1,
        c >= 1,
    ensures
        scan_window(a, b, Some((0int, 0int, 0int, c)), x0, y0, g, ny, j) == Some((0int, 0int, 0int, c)),
    decreases j,
{
    if j > 0 {
        lemma_scan_window_keeps_zero(a, b, c, x0, y0, g, ny, (j - 1) as nat);
        lemma_scan_column_keeps_zero(a, b, c, x0 + (j - 1) * g, y0, g, ny);
    }
}

proof fn lemma_refine_self(a: ImageView, c: int, e: nat)
    requires
        a.width >= 1,
        a.height >= 1,
        c >= 1,
    ensures
        refine(a, a, Some((0int, 0int, 0int, c)), e) matches Some(r) && r.0 == 0 && r.1 == 0 && r.2 == 0 && r.3
            >= 1,
    decreases e,
{
    if e > 0 {
        let g = pow2((e - 1) as nat) as int;
        lemma_pow2_positive((e - 1) as nat);
        lemma_zero_offset_self(a, g);
        let c2 = difference(a, a, 0, 0, g).unwrap().1;
        lemma_scan_window_keeps_zero(a, a, c2, -2 * g, -2 * g, g, 4, 4);
        lemma_refine_self(a, c2, (e - 1) as nat);
    }
}

/// A raster with samples matched against itself: the estimate is the zero
/// offset, with zero mismatch and so zero cost.
pub proof fn lemma_self_alignment(a: ImageView)
    requires
        a.width >= 1,
        a.height >= 1,
    ensures
        reported(displacement(a, a)) == Some((0int, 0int, 0int)),
{
    let r = coarse_exponent(min(min(a.width as int, a.height as int), min(a.width as int, a.height as int)) as nat);
    let g = pow2(r) as int;
    lemma_pow2_positive(r);
    lemma_zero_offset_self(a, g);
    let c = difference(a, a, 0, 0, g).unwrap().1;
    let x0 = window_start(a.width as int, a.width as int, g);
    let y0 = window_start(a.height as int, a.height as int, g);
    let nx = window_count(a.width as int, a.width as int, g);
    let ny = window_count(a.height as int, a.height as int, g);
    lemma_scan_window_keeps_zero(a, a, c, x0, y0, g, ny as nat, nx as nat);
    lemma_refine_self(a, c, r);
    let e = displacement(a, a).unwrap();
    assert(cost_of(0, e.3) == 0) by (nonlinear_arith)
        requires e.3 >= 1;
}

/// `b` is the part of `a` whose top-left corner is at `(dx, dy)`.
pub open spec fn is_crop(a: ImageView, b: ImageView, dx: int, dy: int) -> bool {
    &&& 0 <= dx && dx + b.width <= a.width
    &&& 0 <= dy && dy + b.height <= a.height
    &&& forall|x: int, y: int|
        0 <= x < b.width && 0 <= y < b.height ==> #[trigger] b.at(x, y) == a.at(dx + x, dy + y)
}

/// A crop of a raster, placed where it was taken, matches it exactly: its
/// mismatch total is zero at every sampling stride.
pub proof fn lemma_crop_scores_zero(a: ImageView, b: ImageView, dx: int, dy: int, d: int)
    requires
        is_crop(a, b, dx, dy),
        b.width >= 1,
        b.height >= 1,
        d >= 1,
    ensures
        difference(a, b, dx, dy, d) matches Some(s) && s.0 == 0,
{
    let ov = overlap(a, b, dx, dy);
    assert(ov.width == b.width && ov.height == b.height);
    lemma_total_zero_iff_equal(a, b, dx, dy, d);
    assert forall|i: int, j: int|
        0 <= i < samples(ov.width, d) && 0 <= j < samples(ov.height, d) implies #[trigger] a.at(
        ov.a_x + i * d,
        ov.a_y + j * d,
    ) == b.at(ov.b_x + i * d, ov.b_y + j * d) by {
        lemma_sample_in_range(i, ov.width, d);
        lemma_sample_in_range(j, ov.height, d);
        assert(b.at(i * d, j * d) == a.at(dx + i * d, dy + j * d));
    }
}

/// The offset of an estimate lies within `lim` on both axes.
pub open spec fn bounded(best: Option<(int, int, int, int)>, lim: int) -> bool {
    best matches Some(c) ==> abs(c.0) <= lim && abs(c.1) <= lim
}

proof fn lemma_scan_column_bounded(
    a: ImageView,
    b: ImageView,
    best: Option<(int, int, int, int)>,
    x: int,
    y0: int,
    g: int,
    k: nat,
    lim: int,
)
    requires
        g >= 1,
        bounded(best, lim),
        abs(x) <= lim,
        -lim <= y0,
        y0 + k * g <= lim + g,
    ensures
        bounded(scan_column(a, b, best, x, y0, g, k), lim),
    decreases k,
{
    if k > 0 {
        assert(y0 + (k - 1) * g <= lim) by (nonlinear_arith)
            requires y0 + k * g <= lim + g;
        assert(y0 + (k - 1) * g >= y0) by (nonlinear_arith)
            requires k >= 1, g >= 1;
        lemma_scan_column_bounded(a, b, best, x, y0, g, (k - 1) as nat, lim);
    }
}

proof fn lemma_scan_window_bounded(
    a: ImageView,
    b: ImageView,
    best: Option<(int, int, int, int)>,
    x0: int,
    y0: int,
    g: int,
    ny: nat,
    j: nat,
    lim: int,
)
    requires
        g >= 1,
        bounded(best, lim),
        -lim <= x0,
        x0 + j * g <= lim + g,
        -lim <= y0,
        y0 + ny * g <= lim + g,
    ensures
        bounded(scan_window(a, b, best, x0, y0, g, ny, j), lim),
    decreases j,
{
    if j > 0 {
        assert(x0 + (j - 1) * g <= lim) by (nonlinear_arith)
            requires x0 + j * g <= lim + g;
        assert(x0 + (j - 1) * g >= x0) by (nonlinear_arith)
            requires j >= 1, g >= 1;
        lemma_scan_window_bounded(a, b, best, x0, y0, g, ny, (j - 1) as nat, lim);
        lemma_scan_column_bounded(
            a,
            b,
            scan_window(a, b, best, x0, y0, g, ny, (j - 1) as nat),
            x0 + (j - 1) * g,
            y0,
            g,
            ny,
            lim,
        );
    }
}

proof fn lemma_refine_bounded(a: ImageView, b: ImageView, best: Option<(int, int, int, int)>, e: nat, lim: int)
    requires
        bounded(best, lim),
    ensures
        bounded(refine(a, b, best, e), lim + 2 * pow2(e)),
    decreases e,
{
    if e > 0 {
        if let Some(c) = best {
            let g = pow2((e - 1) as nat) as int;
            lemma_pow2_positive((e - 1) as nat);
            let l2 = lim + 2 * g;
            let seed = consider(a, b, None, c.0, c.1, g);
            assert(bounded(seed, l2));
            lemma_scan_window_bounded(a, b, seed, c.0 - 2 * g, c.1 - 2 * g, g, 4, 4, l2);
            lemma_refine_bounded(
                a,
                b,
                scan_window(a, b, seed, c.0 - 2 * g, c.1 - 2 * g, g, 4, 4),
                (e - 1) as nat,
                l2,
            );
        } else {
            assert(refine(a, b, best, e) is None);
        }
    }
}

proof fn lemma_coarse_stride(m: nat)
    ensures
        pow2(coarse_exponent(m)) * 16 <= if m >= 16 { m } else { 16 },
    decreases m,
{
    if m >= 32 {
        lemma_coarse_stride(m / 2);
    }
}

proof fn lemma_first_window_bounded(sa: int, sb: int, g: int)
    requires
        0 <= sa < 0x1_0000_0000,
        0 <= sb < 0x1_0000_0000,
        1 <= g <= 0x1000_0000,
    ensures
        -0x1_0000_0000 <= window_start(sa, sb, g) <= 0,
        window_start(sa, sb, g) + window_count(sa, sb, g) * g <= 0x1_0000_0000 + g,
        window_count(sa, sb, g) >= 0,
{
    let h = min(sa, sb) / 2;
    let q = h / g;
    assert(0 <= q * g <= h) by (nonlinear_arith)
        requires q == h / g, g >= 1, h >= 0;
    let x0 = window_start(sa, sb, g);
    let len = max(sa, sb) - h - x0;
    lemma_samples_cover(len, g);
}

/// An estimated offset lies within `OFFSET_BOUND` on both axes.
pub proof fn lemma_displacement_bounded(a: ImageView, b: ImageView)
    requires
        a.width < 0x1_0000_0000,
        a.height < 0x1_0000_0000,
        b.width < 0x1_0000_0000,
        b.height < 0x1_0000_0000,
    ensures
        bounded(displacement(a, b), OFFSET_BOUND as int),
{
    let m = min(min(a.width as int, a.height as int), min(b.width as int, b.height as int));
    let r = coarse_exponent(m as nat);
    let g = pow2(r) as int;
    lemma_coarse_stride(m as nat);
    lemma_pow2_positive(r);
    let x0 = window_start(a.width as int, b.width as int, g);
    let y0 = window_start(a.height as int, b.height as int, g);
    let nx = window_count(a.width as int, b.width as int, g);
    let ny = window_count(a.height as int, b.height as int, g);
    lemma_first_window_bounded(a.width as int, b.width as int, g);
    lemma_first_window_bounded(a.height as int, b.height as int, g);
    let lim = 0x1_0000_0000 + g;
    let seed = consider(a, b, None, 0, 0, g);
    assert(bounded(seed, lim));
    lemma_scan_window_bounded(a, b, seed, x0, y0, g, ny as nat, nx as nat, lim);
    lemma_refine_bounded(a, b, scan_window(a, b, seed, x0, y0, g, ny as nat, nx as nat), r, lim);
}

/// The estimator's contract leaves one result: two estimates for the same
/// pair of rasters are equal.
pub proof fn lemma_estimate_deterministic(a: ImageView, b: ImageView, r1: Option<Displacement>, r2: Option<Displacement>)
    requires
        displacement_of(r1) == reported(displacement(a, b)),
        displacement_of(r2) == reported(displacement(a, b)),
    ensures
        r1 == r2,
{
}

} // verus!
