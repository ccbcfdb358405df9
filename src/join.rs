//! Composition of positioned layers into one raster by inverse-distance
//! weighting.

use vstd::prelude::*;
use vstd::arithmetic::div_mod::lemma_fundamental_div_mod;
use crate::error::{Error, ErrorKind};
use crate::raster::{ImageView, Layer, RasterImage, Rgb, Vector, View, lemma_mul_bounded};
use vstd::view::View as _;

verus! {

/// Fixed-point unit of the weight ratio of a layer to the nearest one.
pub const WEIGHT_ONE: u128 = 0x100_0000;

pub open spec fn min(a: int, b: int) -> int {
    if a <= b { a } else { b }
}

pub open spec fn max(a: int, b: int) -> int {
    if a >= b { a } else { b }
}

/// The geometric centre of a layer in world coordinates.
pub open spec fn center(l: Layer) -> (int, int) {
    (l.position.x + l.image.width / 2, l.position.y + l.image.height / 2)
}

/// Squared distance from `(px, py)` to the layer's centre, at least 1 (a
/// point at the centre counts as one unit away).
pub open spec fn sq_distance(l: Layer, px: int, py: int) -> int {
    let dx = px - center(l).0;
    let dy = py - center(l).1;
    max(1, dx * dx + dy * dy)
}

/// The least squared distance to the centre of a layer, among the first `k`,
/// that covers `(px, py)`; 0 when none covers it.
pub open spec fn nearest(ls: Seq<Layer>, px: int, py: int, k: nat) -> int
    decreases k,
{
    if k == 0 {
        0
    } else {
        let m = nearest(ls, px, py, (k - 1) as nat);
        let l = ls[k - 1];
        if l.covers(px, py) && (m == 0 || sq_distance(l, px, py) < m) {
            sq_distance(l, px, py)
        } else {
            m
        }
    }
}

/// Weight of a layer at squared distance `d` when the nearest covering layer
/// is at squared distance `m`: the inverse fourth power of the distance,
/// relative to the nearest layer's and in units of `WEIGHT_ONE` squared,
/// rounded down: `floor(WEIGHT_ONE * m / d)^2`.
pub open spec fn weight(m: int, d: int) -> int {
    let t = (WEIGHT_ONE * m) / d;
    t * t
}

/// Sum of the weights of the covering layers among the first `k`.
pub open spec fn weight_total(ls: Seq<Layer>, px: int, py: int, m: int, k: nat) -> int
    decreases k,
{
    if k == 0 {
        0
    } else {
        let l = ls[k - 1];
        weight_total(ls, px, py, m, (k - 1) as nat) + if l.covers(px, py) {
            weight(m, sq_distance(l, px, py))
        } else {
            0
        }
    }
}

pub open spec fn channel(c: Rgb, ch: int) -> int {
    if ch == 0 {
        c.r as int
    } else if ch == 1 {
        c.g as int
    } else {
        c.b as int
    }
}

/// Weighted sum of channel `ch` of the covering layers among the first `k`.
pub open spec fn channel_total(ls: Seq<Layer>, px: int, py: int, m: int, ch: int, k: nat) -> int
    decreases k,
{
    if k == 0 {
        0
    } else {
        let l = ls[k - 1];
        channel_total(ls, px, py, m, ch, (k - 1) as nat) + if l.covers(px, py) {
            channel(l.sample(px, py), ch) * weight(m, sq_distance(l, px, py))
        } else {
            0
        }
    }
}

/// The output colour at world point `(px, py)`: the weighted mean of the
/// covering layers' samples, each channel rounded down; black where no layer
/// covers the point.
pub open spec fn blended(ls: Seq<Layer>, px: int, py: int) -> Rgb {
    let m = nearest(ls, px, py, ls.len());
    let w = weight_total(ls, px, py, m, ls.len());
    if w == 0 {
        Rgb { r: 0, g: 0, b: 0 }
    } else {
        Rgb {
            r: (channel_total(ls, px, py, m, 0, ls.len()) / w) as u8,
            g: (channel_total(ls, px, py, m, 1, ls.len()) / w) as u8,
            b: (channel_total(ls, px, py, m, 2, ls.len()) / w) as u8,
        }
    }
}

/// Least left edge among the first `k >= 1` layers.
pub open spec fn min_left(ls: Seq<Layer>, k: nat) -> int
    decreases k,
{
    if k <= 1 {
        ls[0].position.x as int
    } else {
        min(min_left(ls, (k - 1) as nat), ls[k - 1].position.x as int)
    }
}

pub open spec fn min_top(ls: Seq<Layer>, k: nat) -> int
    decreases k,
{
    if k <= 1 {
        ls[0].position.y as int
    } else {
        min(min_top(ls, (k - 1) as nat), ls[k - 1].position.y as int)
    }
}

pub open spec fn max_right(ls: Seq<Layer>, k: nat) -> int
    decreases k,
{
    if k <= 1 {
        ls[0].position.x + ls[0].image.width
    } else {
        max(max_right(ls, (k - 1) as nat), ls[k - 1].position.x + ls[k - 1].image.width)
    }
}

pub open spec fn max_bottom(ls: Seq<Layer>, k: nat) -> int
    decreases k,
{
    if k <= 1 {
        ls[0].position.y + ls[0].image.height
    } else {
        max(max_bottom(ls, (k - 1) as nat), ls[k - 1].position.y + ls[k - 1].image.height)
    }
}

/// The union bounding box of the layers: left, top, right, bottom.
pub open spec fn bounds(ls: Seq<Layer>) -> (int, int, int, int) {
    (min_left(ls, ls.len()), min_top(ls, ls.len()), max_right(ls, ls.len()), max_bottom(ls, ls.len()))
}

/// The composite can be built: there is a layer, the bounding box has
/// positive area, and a raster of its size can be held.
pub open spec fn composite_ok(ls: Seq<Layer>) -> bool {
    let b = bounds(ls);
    &&& ls.len() > 0
    &&& b.2 - b.0 > 0 && b.3 - b.1 > 0
    &&& b.2 - b.0 <= u32::MAX && b.3 - b.1 <= u32::MAX
    &&& (b.2 - b.0) * (b.3 - b.1) <= usize::MAX
}

/// Why the composite cannot be built.
pub open spec fn composite_error(ls: Seq<Layer>) -> ErrorKind {
    let b = bounds(ls);
    if ls.len() == 0 {
        ErrorKind::EmptyInput
    } else if b.2 - b.0 <= 0 || b.3 - b.1 <= 0 {
        ErrorKind::DegenerateGeometry
    } else {
        ErrorKind::Oversized
    }
}

/// `img` is the composite of `ls`: it spans the bounding box exactly, and
/// each sample is the blend at its world point.
pub open spec fn is_composite(ls: Seq<Layer>, img: ImageView) -> bool {
    let b = bounds(ls);
    &&& img.wf()
    &&& img.width == b.2 - b.0
    &&& img.height == b.3 - b.1
    &&& forall|i: int, j: int|
        0 <= i < img.width && 0 <= j < img.height ==> #[trigger] img.at(i, j) == blended(ls, b.0 + i, b.1 + j)
}

proof fn lemma_nearest_bound(ls: Seq<Layer>, px: int, py: int, k: nat, idx: int)
    requires
        0 <= idx < k <= ls.len(),
        ls[idx].covers(px, py),
    ensures
        1 <= nearest(ls, px, py, k) <= sq_distance(ls[idx], px, py),
    decreases k,
{
    lemma_nearest_range(ls, px, py, (k - 1) as nat);
    if idx < k - 1 {
        lemma_nearest_bound(ls, px, py, (k - 1) as nat, idx);
    }
}

proof fn lemma_nearest_range(ls: Seq<Layer>, px: int, py: int, k: nat)
    requires
        k <= ls.len(),
    ensures
        nearest(ls, px, py, k) == 0 || nearest(ls, px, py, k) >= 1,
    decreases k,
{
    if k > 0 {
        lemma_nearest_range(ls, px, py, (k - 1) as nat);
    }
}

/// The squared distance from `(px, py)` to the layer's centre when the layer
/// covers that point.
fn layer_distance(l: &Layer, px: i128, py: i128) -> (r: Option<u128>)
    requires
        -0x1_0000_0000_0000_0000_0000 <= px <= 0x1_0000_0000_0000_0000_0000,
        -0x1_0000_0000_0000_0000_0000 <= py <= 0x1_0000_0000_0000_0000_0000,
    ensures
        r is Some <==> l.covers(px as int, py as int),
        r matches Some(d) ==> d == sq_distance(*l, px as int, py as int) && 1 <= d <= 0x4_0000_0000_0000_0000,
{
    let x = l.position.x as i128;
    let y = l.position.y as i128;
    let w = l.image.width as i128;
    let h = l.image.height as i128;
    if px < x || py < y || px >= x + w || py >= y + h {
        return None;
    }
    let dx = px - (x + w / 2);
    let dy = py - (y + h / 2);
    assert(dx * dx <= 0x1_0000_0000 * 0x1_0000_0000 && dx * dx >= 0) by (nonlinear_arith)
        requires -0x1_0000_0000 <= dx <= 0x1_0000_0000;
    assert(dy * dy <= 0x1_0000_0000 * 0x1_0000_0000 && dy * dy >= 0) by (nonlinear_arith)
        requires -0x1_0000_0000 <= dy <= 0x1_0000_0000;
    let d = dx * dx + dy * dy;
    if d < 1 {
        Some(1)
    } else {
        Some(d as u128)
    }
}

proof fn lemma_ratio_bounded(m: int, d: int)
    requires
        1 <= m <= d,
    ensures
        0 <= (WEIGHT_ONE * m) / d <= WEIGHT_ONE,
{
    let a = WEIGHT_ONE * m;
    assert(a <= WEIGHT_ONE * d) by (nonlinear_arith)
        requires m <= d, a == WEIGHT_ONE * m;
    assert(a / d <= WEIGHT_ONE) by (nonlinear_arith)
        requires a <= WEIGHT_ONE * d, d >= 1, a >= 0;
    assert(a / d >= 0) by (nonlinear_arith)
        requires a >= 0, d >= 1;
}

/// The blended colour at world point `(px, py)`.
fn blend_pixel(layers: &Vec<Layer>, px: i128, py: i128) -> (r: Rgb)
    requires
        forall|k: int| 0 <= k < layers@.len() ==> (#[trigger] layers@[k]).wf(),
        -0x1_0000_0000_0000_0000_0000 <= px <= 0x1_0000_0000_0000_0000_0000,
        -0x1_0000_0000_0000_0000_0000 <= py <= 0x1_0000_0000_0000_0000_0000,
    ensures
        r == blended(layers@, px as int, py as int),
{
    let ghost ls = layers@;
    let n = layers.len();
    let mut m: u128 = 0;
    let mut k: usize = 0;
    while k < n
        invariant
            n == ls.len(),
            ls == layers@,
            k <= n,
            m == nearest(ls, px as int, py as int, k as nat),
            m <= 0x4_0000_0000_0000_0000,
            -0x1_0000_0000_0000_0000_0000 <= px <= 0x1_0000_0000_0000_0000_0000,
            -0x1_0000_0000_0000_0000_0000 <= py <= 0x1_0000_0000_0000_0000_0000,
        decreases n - k,
    {
        match layer_distance(&layers[k], px, py) {
            Some(d) => {
                if m == 0 || d < m {
                    m = d;
                }
            },
            None => {},
        }
        k = k + 1;
    }
    let mut w: u128 = 0;
    let mut cr: u128 = 0;
    let mut cg: u128 = 0;
    let mut cb: u128 = 0;
    let mut k: usize = 0;
    while k < n
        invariant
            n == ls.len(),
            ls == layers@,
            forall|q: int| 0 <= q < ls.len() ==> (#[trigger] ls[q]).wf(),
            k <= n,
            m == nearest(ls, px as int, py as int, n as nat),
            w == weight_total(ls, px as int, py as int, m as int, k as nat),
            cr == channel_total(ls, px as int, py as int, m as int, 0, k as nat),
            cg == channel_total(ls, px as int, py as int, m as int, 1, k as nat),
            cb == channel_total(ls, px as int, py as int, m as int, 2, k as nat),
            w <= k * (WEIGHT_ONE * WEIGHT_ONE),
            cr <= 255 * w,
            cg <= 255 * w,
            cb <= 255 * w,
            -0x1_0000_0000_0000_0000_0000 <= px <= 0x1_0000_0000_0000_0000_0000,
            -0x1_0000_0000_0000_0000_0000 <= py <= 0x1_0000_0000_0000_0000_0000,
        decreases n - k,
    {
        let l = &layers[k];
        assert(k * (WEIGHT_ONE * WEIGHT_ONE) <= (k + 1) * (WEIGHT_ONE * WEIGHT_ONE)) by (nonlinear_arith);
        match layer_distance(l, px, py) {
            Some(d) => {
                proof {
                    lemma_nearest_bound(ls, px as int, py as int, n as nat, k as int);
                    lemma_ratio_bounded(m as int, d as int);
                }
                let t = (WEIGHT_ONE * m) / d;
                assert(t * t <= WEIGHT_ONE * WEIGHT_ONE) by (nonlinear_arith)
                    requires t <= WEIGHT_ONE;
                let wt = t * t;
                let c = l.image.get_pixel((px - l.position.x as i128) as u32, (py - l.position.y as i128) as u32);
                assert(c.r as u128 * wt <= 255 * wt) by (nonlinear_arith);
                assert(c.g as u128 * wt <= 255 * wt) by (nonlinear_arith);
                assert(c.b as u128 * wt <= 255 * wt) by (nonlinear_arith);
                assert(w + wt <= (k + 1) * (WEIGHT_ONE * WEIGHT_ONE)) by (nonlinear_arith)
                    requires w <= k * (WEIGHT_ONE * WEIGHT_ONE), wt <= WEIGHT_ONE * WEIGHT_ONE;
                assert((k + 1) * (WEIGHT_ONE * WEIGHT_ONE) <= 0x1_0000_0000_0000_0000 * (WEIGHT_ONE * WEIGHT_ONE))
                    by (nonlinear_arith)
                    requires k < 0x1_0000_0000_0000_0000;
                w = w + wt;
                cr = cr + c.r as u128 * wt;
                cg = cg + c.g as u128 * wt;
                cb = cb + c.b as u128 * wt;
            },
            None => {},
        }
        k = k + 1;
    }
    if w == 0 {
        Rgb { r: 0, g: 0, b: 0 }
    } else {
        assert(cr / w <= 255 && cg / w <= 255 && cb / w <= 255) by (nonlinear_arith)
            requires cr <= 255 * w, cg <= 255 * w, cb <= 255 * w, w >= 1;
        Rgb { r: (cr / w) as u8, g: (cg / w) as u8, b: (cb / w) as u8 }
    }
}

/// The union bounding box of a non-empty list of layers.
fn bounding_box(layers: &Vec<Layer>) -> (r: (i128, i128, i128, i128))
    requires
        layers@.len() > 0,
    ensures
        r.0 == bounds(layers@).0,
        r.1 == bounds(layers@).1,
        r.2 == bounds(layers@).2,
        r.3 == bounds(layers@).3,
        i64::MIN <= r.0 <= i64::MAX,
        i64::MIN <= r.1 <= i64::MAX,
        i64::MIN <= r.2 <= i64::MAX + u32::MAX,
        i64::MIN <= r.3 <= i64::MAX + u32::MAX,
{
    let ghost ls = layers@;
    let mut left = layers[0].position.x as i128;
    let mut top = layers[0].position.y as i128;
    let mut right = layers[0].position.x as i128 + layers[0].image.width as i128;
    let mut bottom = layers[0].position.y as i128 + layers[0].image.height as i128;
    let mut k: usize = 1;
    while k < layers.len()
        invariant
            ls == layers@,
            1 <= k <= ls.len(),
            left == min_left(ls, k as nat),
            top == min_top(ls, k as nat),
            right == max_right(ls, k as nat),
            bottom == max_bottom(ls, k as nat),
            i64::MIN <= left <= i64::MAX,
            i64::MIN <= top <= i64::MAX,
            i64::MIN <= right <= i64::MAX + u32::MAX,
            i64::MIN <= bottom <= i64::MAX + u32::MAX,
        decreases ls.len() - k,
    {
        let l = &layers[k];
        let x = l.position.x as i128;
        let y = l.position.y as i128;
        if x < left {
            left = x;
        }
        if y < top {
            top = y;
        }
        if x + l.image.width as i128 > right {
            right = x + l.image.width as i128;
        }
        if y + l.image.height as i128 > bottom {
            bottom = y + l.image.height as i128;
        }
        k = k + 1;
    }
    (left, top, right, bottom)
}

pub open spec fn sample_at(s: Seq<Rgb>, w: int, i: int, j: int) -> Rgb {
    s[j * w + i]
}

/// Blends the layers into one raster that spans their union bounding box.
/// Fails with `EmptyInput` when there is no layer, `DegenerateGeometry` when
/// the box has no positive width or height, and `Oversized` when a raster of
/// its size cannot be held.
pub fn composite(layers: &Vec<Layer>) -> (r: Result<RasterImage, Error>)
    requires
        forall|k: int| 0 <= k < layers@.len() ==> (#[trigger] layers@[k]).wf(),
    ensures
        r is Ok <==> composite_ok(layers@),
        r matches Ok(img) ==> img.wf() && is_composite(layers@, img@),
        r matches Err(e) ==> e.kind == composite_error(layers@),
{
    if layers.len() == 0 {
        return Err(Error::empty_input());
    }
    let (left, top, right, bottom) = bounding_box(layers);
    let wd = right - left;
    let ht = bottom - top;
    if wd <= 0 || ht <= 0 {
        return Err(Error::degenerate_geometry());
    }
    if wd > u32::MAX as i128 || ht > u32::MAX as i128 {
        return Err(Error::oversized());
    }
    let w = wd as u32;
    let h = ht as u32;
    proof {
        lemma_mul_bounded(w as int, h as int, 0x1_0000_0000);
    }
    if w as u128 * h as u128 > usize::MAX as u128 {
        return Err(Error::oversized());
    }
    let ghost ls = layers@;
    let mut pixels: Vec<Rgb> = Vec::new();
    let mut j: u32 = 0;
    while j < h
        invariant
            ls == layers@,
            forall|k: int| 0 <= k < ls.len() ==> (#[trigger] ls[k]).wf(),
            j <= h,
            pixels@.len() == j * w,
            w * h <= usize::MAX,
            left == bounds(ls).0,
            top == bounds(ls).1,
            i64::MIN <= left <= i64::MAX,
            i64::MIN <= top <= i64::MAX,
            forall|ii: int, jj: int|
                0 <= ii < w && 0 <= jj < j ==> #[trigger] sample_at(pixels@, w as int, ii, jj) == blended(
                    ls,
                    left + ii,
                    top + jj,
                ),
        decreases h - j,
    {
        let mut i: u32 = 0;
        while i < w
            invariant
                ls == layers@,
                forall|k: int| 0 <= k < ls.len() ==> (#[trigger] ls[k]).wf(),
                i <= w,
                j < h,
                pixels@.len() == j * w + i,
                w * h <= usize::MAX,
                i64::MIN <= left <= i64::MAX,
                i64::MIN <= top <= i64::MAX,
                forall|ii: int, jj: int|
                    0 <= ii < w && 0 <= jj < j ==> #[trigger] sample_at(pixels@, w as int, ii, jj) == blended(
                        ls,
                        left + ii,
                        top + jj,
                    ),
                forall|ii: int|
                    0 <= ii < i ==> #[trigger] sample_at(pixels@, w as int, ii, j as int) == blended(
                        ls,
                        left + ii,
                        top + j,
                    ),
            decreases w - i,
        {
            let c = blend_pixel(layers, left + i as i128, top + j as i128);
            proof {
                lemma_index_after(i as int, j as int, w as int, h as int);
            }
            let ghost prev = pixels@;
            pixels.push(c);
            proof {
                assert forall|ii: int, jj: int|
                    0 <= ii < w && 0 <= jj < j implies #[trigger] sample_at(pixels@, w as int, ii, jj) == blended(
                    ls,
                    left + ii,
                    top + jj,
                ) by {
                    crate::raster::lemma_index_in_bounds(ii, jj, w as int, j as int);
                    assert(w * j == j * w) by (nonlinear_arith);
                    assert(pixels@[jj * w + ii] == prev[jj * w + ii]);
                    assert(sample_at(prev, w as int, ii, jj) == blended(ls, left + ii, top + jj));
                }
                assert forall|ii: int|
                    0 <= ii < i + 1 implies #[trigger] sample_at(pixels@, w as int, ii, j as int) == blended(
                    ls,
                    left + ii,
                    top + j,
                ) by {
                    if ii < i {
                        assert(sample_at(prev, w as int, ii, j as int) == blended(ls, left + ii, top + j));
                        assert(j * w + ii < j * w + i);
                    }
                }
            }
            i = i + 1;
        }
        proof {
            assert((j + 1) * w == j * w + w) by (nonlinear_arith);
        }
        j = j + 1;
    }
    let img = RasterImage { width: w, height: h, pixels };
    proof {
        assert(pixels@.len() == w * h) by (nonlinear_arith)
            requires pixels@.len() == j * w, j == h;
        assert forall|i: int, jj: int| 0 <= i < img@.width && 0 <= jj < img@.height implies #[trigger] img@.at(i, jj)
            == blended(ls, bounds(ls).0 + i, bounds(ls).1 + jj) by {
            assert(sample_at(img.pixels@, w as int, i, jj) == blended(ls, left + i, top + jj));
        }
    }
    Ok(img)
}

proof fn lemma_index_after(i: int, j: int, w: int, h: int)
    requires
        0 <= i < w,
        0 <= j < h,
        w * h <= usize::MAX,
    ensures
        j * w + i < w * h,
        0 <= j * w,
{
    crate::raster::lemma_index_in_bounds(i, j, w, h);
}

proof fn lemma_full_weight(d: int)
    requires
        d >= 1,
    ensures
        weight(d, d) == WEIGHT_ONE * WEIGHT_ONE,
{
    assert((WEIGHT_ONE * d) / d == WEIGHT_ONE) by (nonlinear_arith)
        requires d >= 1;
}

/// Compositing one layer placed at the origin gives back its raster: same
/// size, same samples.
pub proof fn lemma_single_layer_identity(l: Layer, img: ImageView)
    requires
        l.wf(),
        l.position.x == 0,
        l.position.y == 0,
        is_composite(seq![l], img),
    ensures
        img.width == l.image.width,
        img.height == l.image.height,
        img.pixels == l.image.pixels@,
{
    let ls = seq![l];
    let w = l.image.width as int;
    let h = l.image.height as int;
    assert(bounds(ls) == (0int, 0int, w, h));
    assert forall|i: int, j: int| 0 <= i < w && 0 <= j < h implies #[trigger] img.at(i, j) == l.image@.at(i, j) by {
        assert(img.at(i, j) == blended(ls, i, j));
        let d = sq_distance(l, i, j);
        assert(l.covers(i, j));
        assert(ls[0] == l);
        assert(nearest(ls, i, j, 0) == 0);
        assert(nearest(ls, i, j, 1) == d);
        lemma_full_weight(d);
        let c = l.sample(i, j);
        let s2 = WEIGHT_ONE * WEIGHT_ONE;
        assert(weight_total(ls, i, j, d, 0) == 0);
        assert(channel_total(ls, i, j, d, 0, 0) == 0);
        assert(channel_total(ls, i, j, d, 1, 0) == 0);
        assert(channel_total(ls, i, j, d, 2, 0) == 0);
        assert(weight_total(ls, i, j, d, 1) == s2);
        assert(channel_total(ls, i, j, d, 0, 1) == c.r * s2);
        assert(channel_total(ls, i, j, d, 1, 1) == c.g * s2);
        assert(channel_total(ls, i, j, d, 2, 1) == c.b * s2);
        assert((c.r * s2) / s2 == c.r) by (nonlinear_arith)
            requires s2 > 0;
        assert((c.g * s2) / s2 == c.g) by (nonlinear_arith)
            requires s2 > 0;
        assert((c.b * s2) / s2 == c.b) by (nonlinear_arith)
            requires s2 > 0;
    }
    assert forall|idx: int| 0 <= idx < img.pixels.len() implies img.pixels[idx] == l.image.pixels@[idx] by {
        lemma_fundamental_div_mod(idx, w);
        let j = idx / w;
        let i = idx % w;
        assert(0 <= i < w);
        assert(0 <= j < h) by (nonlinear_arith)
            requires idx == w * j + i, 0 <= i < w, 0 <= idx < w * h, w >= 1;
        assert(img.at(i, j) == l.image@.at(i, j));
        assert(j * w + i == idx) by (nonlinear_arith)
            requires idx == w * j + i;
    }
    assert(img.pixels =~= l.image.pixels@);
}

proof fn lemma_div_monotone(a1: int, b1: int, a2: int, b2: int)
    requires
        a1 >= 0,
        a2 >= 0,
        b1 >= 1,
        b2 >= 1,
        a1 * b2 <= a2 * b1,
    ensures
        a1 / b1 <= a2 / b2,
{
    lemma_fundamental_div_mod(a1, b1);
    lemma_fundamental_div_mod(a2, b2);
    let q1 = a1 / b1;
    let q2 = a2 / b2;
    assert(q1 * b1 <= a1);
    assert(q1 * b1 * b2 <= a1 * b2) by (nonlinear_arith)
        requires q1 * b1 <= a1, b2 >= 1;
    assert(q1 * b2 * b1 <= a2 * b1) by (nonlinear_arith)
        requires q1 * b1 * b2 <= a1 * b2, a1 * b2 <= a2 * b1;
    assert(q1 * b2 <= a2) by (nonlinear_arith)
        requires q1 * b2 * b1 <= a2 * b1, b1 >= 1;
    assert(q1 <= q2) by (nonlinear_arith)
        requires q1 * b2 <= a2, a2 == b2 * q2 + a2 % b2, a2 % b2 < b2, b2 >= 1;
}

proof fn lemma_square_monotone(t1: int, t2: int)
    requires
        0 <= t1 <= t2,
    ensures
        t1 * t1 <= t2 * t2,
{
    assert(t1 * t1 <= t2 * t2) by (nonlinear_arith)
        requires 0 <= t1 <= t2;
}

/// The blend weights of two layers covering one point, at squared distances
/// `da` and `db` from their centres.
pub open spec fn pair_weights(da: int, db: int) -> (int, int) {
    (weight(min(da, db), da), weight(min(da, db), db))
}

/// For two layers covering a point: moving the point no farther from the
/// first layer's centre (squared distance `da` to `da2`) and no closer to the
/// second's (`db` to `db2`) never lowers the first layer's weight relative to
/// the second's.
pub proof fn lemma_weight_monotone(da: int, db: int, da2: int, db2: int)
    requires
        1 <= da2 <= da,
        1 <= db <= db2,
    ensures
        pair_weights(da2, db2).0 * pair_weights(da, db).1 >= pair_weights(da, db).0 * pair_weights(da2, db2).1,
{
    let s2 = WEIGHT_ONE * WEIGHT_ONE;
    let (wa, wb) = pair_weights(da, db);
    let (wa2, wb2) = pair_weights(da2, db2);
    if da <= db {
        lemma_full_weight(da);
        lemma_full_weight(da2);
        assert(WEIGHT_ONE * da2 * db <= WEIGHT_ONE * da * db2) by (nonlinear_arith)
            requires 1 <= da2 <= da, 1 <= db <= db2;
        lemma_div_monotone(WEIGHT_ONE * da2, db2, WEIGHT_ONE * da, db);
        lemma_ratio_bounded(da2, db2);
        lemma_square_monotone((WEIGHT_ONE * da2) / db2, (WEIGHT_ONE * da) / db);
        assert(wa2 * wb >= wa * wb2) by (nonlinear_arith)
            requires wa2 == s2, wa == s2, wb2 <= wb, s2 > 0;
    } else {
        lemma_full_weight(db);
        lemma_ratio_bounded(db, da);
        if db2 < da2 {
            lemma_full_weight(db2);
            assert(WEIGHT_ONE * db * da2 <= WEIGHT_ONE * db2 * da) by (nonlinear_arith)
                requires 1 <= da2 <= da, 1 <= db <= db2;
            lemma_div_monotone(WEIGHT_ONE * db, da, WEIGHT_ONE * db2, da2);
            lemma_square_monotone((WEIGHT_ONE * db) / da, (WEIGHT_ONE * db2) / da2);
            assert(wa2 * wb >= wa * wb2) by (nonlinear_arith)
                requires wb == s2, wb2 == s2, wa <= wa2, s2 > 0;
        } else {
            lemma_full_weight(da2);
            lemma_ratio_bounded(da2, db2);
            lemma_square_monotone((WEIGHT_ONE * db) / da, WEIGHT_ONE as int);
            lemma_square_monotone((WEIGHT_ONE * da2) / db2, WEIGHT_ONE as int);
            assert(wa >= 0 && wb2 >= 0) by (nonlinear_arith)
                requires wa == ((WEIGHT_ONE * db) / da) * ((WEIGHT_ONE * db) / da), wb2 == ((WEIGHT_ONE * da2) / db2) * ((WEIGHT_ONE * da2) / db2);
            assert(wa2 * wb >= wa * wb2) by (nonlinear_arith)
                requires wa2 == s2, wb == s2, 0 <= wa <= s2, 0 <= wb2 <= s2;
        }
    }
}

/// Before rounding, the weight of a layer at squared distance `d` relative to
/// the nearest layer at `m` is `(m / d)^2` (the inverse fourth power of the
/// distance, relative); `weight` is `WEIGHT_ONE^2` times it, rounded down.
/// Before rounding, the first layer's weight relative to the second's,
/// `(db / da)^2`, grows strictly when the point moves strictly closer to the
/// first centre and no closer to the second, or no farther from the first
/// and strictly farther from the second.
pub proof fn lemma_unrounded_weight_strict(da: int, db: int, da2: int, db2: int)
    requires
        1 <= da2 <= da,
        1 <= db <= db2,
        da2 < da || db < db2,
    ensures
        db2 * db2 * (da * da) > db * db * (da2 * da2),
{
    assert(db2 * da > db * da2) by (nonlinear_arith)
        requires 1 <= da2 <= da, 1 <= db <= db2, da2 < da || db < db2;
    assert(db * da2 >= 1) by (nonlinear_arith)
        requires db >= 1, da2 >= 1;
    assert(db2 * da * (db2 * da) > db * da2 * (db * da2)) by (nonlinear_arith)
        requires db2 * da > db * da2, db * da2 >= 1;
    assert(db2 * db2 * (da * da) == db2 * da * (db2 * da)) by (nonlinear_arith);
    assert(db * db * (da2 * da2) == db * da2 * (db * da2)) by (nonlinear_arith);
}

/// The composite of a list of layers is one raster: two composites of the
/// same layers are equal.
pub proof fn lemma_composite_unique(ls: Seq<Layer>, a: ImageView, b: ImageView)
    requires
        is_composite(ls, a),
        is_composite(ls, b),
    ensures
        a == b,
{
    let w = a.width as int;
    let h = a.height as int;
    assert forall|idx: int| 0 <= idx < a.pixels.len() implies a.pixels[idx] == b.pixels[idx] by {
        lemma_fundamental_div_mod(idx, w);
        let j = idx / w;
        let i = idx % w;
        assert(0 <= j < h) by (nonlinear_arith)
            requires idx == w * j + i, 0 <= i < w, 0 <= idx < w * h, w >= 1;
        assert(a.at(i, j) == b.at(i, j));
        assert(j * w + i == idx) by (nonlinear_arith)
            requires idx == w * j + i;
    }
    assert(a.pixels =~= b.pixels);
}

/// The joining stage.
pub struct Join {}

impl Join {
    pub fn new() -> (r: Join) {
        Join {}
    }

    /// Replaces the layers by their composite, one layer at the origin.
    pub fn apply(&self, view: View) -> (r: Result<View, Error>)
        requires
            view.wf(),
        ensures
            r is Ok <==> composite_ok(view.layers@),
            r matches Ok(v) ==> v.wf() && v.layers@.len() == 1 && v.layers@[0].position == (Vector { x: 0, y: 0 })
                && is_composite(view.layers@, v.layers@[0].image@),
            r matches Err(e) ==> e.kind == composite_error(view.layers@),
    {
        match composite(&view.layers) {
            Ok(image) => {
                let layer = Layer::new(image);
                let mut layers: Vec<Layer> = Vec::new();
                layers.push(layer);
                Ok(View { layers })
            },
            Err(e) => Err(e),
        }
    }
}

} // verus!
