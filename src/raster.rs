//! Pixel grids, positioned layers and the working set passed between stages.

use vstd::prelude::*;
use vstd::view::View as _;

verus! {

/// One colour sample, eight bits per channel.
#[derive(Clone, Copy, Debug, PartialEq, Eq, Structural)]
pub struct Rgb {
    pub r: u8,
    pub g: u8,
    pub b: u8,
}

/// A signed integer 2D vector in world coordinates.
#[derive(Clone, Copy, Debug, PartialEq, Eq, Structural)]
pub struct Vector {
    pub x: i64,
    pub y: i64,
}

impl Vector {
    pub fn zeros() -> (r: Vector)
        ensures
            r.x == 0 && r.y == 0,
    {
        Vector { x: 0, y: 0 }
    }

    pub fn new(x: i64, y: i64) -> (r: Vector)
        ensures
            r.x == x && r.y == y,
    {
        Vector { x, y }
    }
}

/// Mathematical content of a raster: its size and its row-major samples.
pub struct ImageView {
    pub width: nat,
    pub height: nat,
    pub pixels: Seq<Rgb>,
}

impl ImageView {
    pub open spec fn wf(self) -> bool {
        self.pixels.len() == self.width * self.height
    }

    /// The sample in column `x` of row `y`.
    pub open spec fn at(self, x: int, y: int) -> Rgb {
        self.pixels[y * self.width + x]
    }
}

/// A dense row-major RGB raster.
#[derive(Clone, Debug)]
pub struct RasterImage {
    pub width: u32,
    pub height: u32,
    pub pixels: Vec<Rgb>,
}

impl vstd::view::View for RasterImage {
    type V = ImageView;

    open spec fn view(&self) -> ImageView {
        ImageView { width: self.width as nat, height: self.height as nat, pixels: self.pixels@ }
    }
}

pub proof fn lemma_index_in_bounds(x: int, y: int, w: int, h: int)
    requires
        0 <= x < w,
        0 <= y < h,
    ensures
        0 <= y * w + x < w * h,
{
    assert(0 <= y * w) by (nonlinear_arith)
        requires 0 <= y, 0 <= w;
    assert(y * w + x < w * h) by (nonlinear_arith)
        requires 0 <= x < w, 0 <= y < h;
}

pub proof fn lemma_mul_bounded(a: int, b: int, m: int)
    requires
        0 <= a < m,
        0 <= b < m,
    ensures
        0 <= a * b < m * m,
{
    assert(0 <= a * b < m * m) by (nonlinear_arith)
        requires 0 <= a < m, 0 <= b < m;
}

impl RasterImage {
    pub open spec fn wf(&self) -> bool {
        self@.wf()
    }

    /// Builds a raster from its samples; `None` when their number is not `width * height`.
    pub fn from_pixels(width: u32, height: u32, pixels: Vec<Rgb>) -> (r: Option<RasterImage>)
        ensures
            r is Some <==> pixels@.len() == width * height,
            r matches Some(img) ==> img.wf() && img.width == width && img.height == height
                && img.pixels@ == pixels@,
    {
        proof {
            lemma_mul_bounded(width as int, height as int, 0x1_0000_0000);
        }
        if pixels.len() as u128 == width as u128 * height as u128 {
            Some(RasterImage { width, height, pixels })
        } else {
            None
        }
    }

    /// A raster of the given size with every sample set to `color`.
    pub fn filled(width: u32, height: u32, color: Rgb) -> (r: RasterImage)
        requires
            width * height <= usize::MAX,
        ensures
            r.wf(),
            r.width == width,
            r.height == height,
            forall|i: int| 0 <= i < r.pixels@.len() ==> r.pixels@[i] == color,
    {
        let n = width as usize * height as usize;
        let mut pixels: Vec<Rgb> = Vec::with_capacity(n);
        let mut i: usize = 0;
        while i < n
            invariant
                i <= n,
                pixels@.len() == i,
                forall|k: int| 0 <= k < i ==> pixels@[k] == color,
            decreases n - i,
        {
            pixels.push(color);
            i = i + 1;
        }
        RasterImage { width, height, pixels }
    }

    /// Whether the raster holds one sample per cell.
    pub fn is_wf(&self) -> (r: bool)
        ensures
            r == self.wf(),
    {
        proof {
            lemma_mul_bounded(self.width as int, self.height as int, 0x1_0000_0000);
        }
        self.pixels.len() as u128 == self.width as u128 * self.height as u128
    }

    pub fn width(&self) -> (r: u32)
        ensures
            r == self.width,
    {
        self.width
    }

    pub fn height(&self) -> (r: u32)
        ensures
            r == self.height,
    {
        self.height
    }

    /// The sample in column `x` of row `y`.
    pub fn get_pixel(&self, x: u32, y: u32) -> (r: Rgb)
        requires
            self.wf(),
            x < self.width,
            y < self.height,
        ensures
            r == self@.at(x as int, y as int),
    {
        proof {
            lemma_index_in_bounds(x as int, y as int, self.width as int, self.height as int);
        }
        let len = self.pixels.len();
        let index = y as usize * self.width as usize + x as usize;
        assert(index < len);
        self.pixels[index]
    }
}

/// A raster placed in world space: `position` is its top-left corner.
#[derive(Clone, Debug)]
pub struct Layer {
    pub position: Vector,
    pub image: RasterImage,
}

impl Layer {
    pub open spec fn wf(&self) -> bool {
        self.image.wf()
    }

    /// The layer's footprint holds the world point `(px, py)`.
    pub open spec fn covers(&self, px: int, py: int) -> bool {
        self.position.x <= px < self.position.x + self.image.width && self.position.y <= py < self.position.y
            + self.image.height
    }

    /// The layer's sample at the world point `(px, py)`.
    pub open spec fn sample(&self, px: int, py: int) -> Rgb {
        self.image@.at(px - self.position.x, py - self.position.y)
    }

    /// A layer at the origin.
    pub fn new(image: RasterImage) -> (r: Layer)
        ensures
            r.position == (Vector { x: 0, y: 0 }),
            r.image == image,
    {
        Layer { position: Vector { x: 0, y: 0 }, image }
    }

    /// The sample at a world position, if the layer covers it.
    pub fn get_pixel(&self, position: &Vector) -> (r: Option<Rgb>)
        requires
            self.wf(),
        ensures
            r == if self.covers(position.x as int, position.y as int) {
                Some(self.sample(position.x as int, position.y as int))
            } else {
                None
            },
    {
        let dx = position.x as i128 - self.position.x as i128;
        let dy = position.y as i128 - self.position.y as i128;
        if dx >= 0 && dy >= 0 && dx < self.image.width as i128 && dy < self.image.height as i128 {
            Some(self.image.get_pixel(dx as u32, dy as u32))
        } else {
            None
        }
    }
}

/// The ordered working set of layers passed from stage to stage; the order
/// gives each layer its index.
#[derive(Clone, Debug)]
pub struct View {
    pub layers: Vec<Layer>,
}

impl Default for View {
    /// A view without layers.
    fn default() -> (r: View)
        ensures
            r.layers@.len() == 0,
    {
        View { layers: Vec::new() }
    }
}

impl View {
    pub open spec fn wf(&self) -> bool {
        forall|k: int| 0 <= k < self.layers@.len() ==> (#[trigger] self.layers@[k]).wf()
    }

    /// Whether every layer's raster holds one sample per cell.
    pub fn is_wf(&self) -> (r: bool)
        ensures
            r == self.wf(),
    {
        let mut k: usize = 0;
        while k < self.layers.len()
            invariant
                k <= self.layers@.len(),
                forall|q: int| 0 <= q < k ==> (#[trigger] self.layers@[q]).wf(),
            decreases self.layers@.len() - k,
        {
            if !self.layers[k].image.is_wf() {
                return false;
            }
            k = k + 1;
        }
        true
    }
}

} // verus!
