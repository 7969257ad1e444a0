use crate::color::Color;
use vstd::prelude::*;

verus! {

/// The mathematical content of a pixel buffer: its dimensions and the color
/// of every pixel, keyed by `(x, y)`.
pub struct Raster {
    pub width: int,
    pub height: int,
    pub pixels: Map<(int, int), Color>,
}

impl Raster {
    /// Whether `(x, y)` names a pixel of the buffer.
    pub open spec fn in_bounds(self, p: (int, int)) -> bool {
        0 <= p.0 < self.width && 0 <= p.1 < self.height
    }

    /// A raster holds exactly one color for every pixel within its
    /// dimensions, and none elsewhere.
    pub open spec fn wf(self) -> bool {
        &&& 0 <= self.width
        &&& 0 <= self.height
        &&& forall|p: (int, int)| self.pixels.dom().contains(p) <==> self.in_bounds(p)
    }

    /// The raster in which every pixel has the same color.
    pub open spec fn solid(width: int, height: int, color: Color) -> Raster {
        Raster {
            width,
            height,
            pixels: Map::new(
                |p: (int, int)| 0 <= p.0 < width && 0 <= p.1 < height,
                |p: (int, int)| color,
            ),
        }
    }

    /// The raster after every pixel of `region` that lies within bounds has
    /// been given `color`. Points of `region` outside the buffer are dropped.
    pub open spec fn painted(self, region: Set<(int, int)>, color: Color) -> Raster {
        Raster {
            width: self.width,
            height: self.height,
            pixels: Map::new(
                |p: (int, int)| self.pixels.dom().contains(p),
                |p: (int, int)|
                    if region.contains(p) {
                        color
                    } else {
                        self.pixels[p]
                    },
            ),
        }
    }
}

/// Painting two regions in the same color, one after the other, paints
/// their union.
pub proof fn lemma_painted_union(
    r: Raster,
    first: Set<(int, int)>,
    second: Set<(int, int)>,
    color: Color,
)
    ensures
        r.painted(first, color).painted(second, color) == r.painted(first.union(second), color),
{
    assert(r.painted(first, color).painted(second, color).pixels =~= r.painted(
        first.union(second),
        color,
    ).pixels);
}

/// Painting a region that has no pixel within bounds changes nothing.
pub proof fn lemma_painted_nothing(r: Raster, region: Set<(int, int)>, color: Color)
    requires
        forall|p: (int, int)| r.pixels.dom().contains(p) ==> !region.contains(p),
    ensures
        r.painted(region, color) == r,
{
    assert(r.painted(region, color).pixels =~= r.pixels);
}

/// A pixel buffer: `width` by `height` colors stored row by row.
#[derive(Debug, PartialEq, Eq)]
pub struct Image {
    width: i32,
    height: i32,
    pixels: Vec<Color>,
}

/// The place of pixel `p` in a buffer stored row by row.
spec fn offset(p: (int, int), width: int) -> int {
    p.1 * width + p.0
}

/// Row-major storage gives every pixel in bounds a place within the buffer.
proof fn lemma_offset_in_range(p: (int, int), width: int, height: int)
    by (nonlinear_arith)
    requires
        0 <= p.0 < width,
        0 <= p.1 < height,
    ensures
        0 <= offset(p, width) < width * height,
        offset(p, width) == p.1 * width + p.0,
{
}

/// Row-major storage gives distinct pixels distinct places.
proof fn lemma_offset_injective(p: (int, int), q: (int, int), width: int)
    by (nonlinear_arith)
    requires
        0 <= p.0 < width,
        0 <= q.0 < width,
        offset(p, width) == offset(q, width),
    ensures
        p == q,
{
}

impl View for Image {
    type V = Raster;

    closed spec fn view(&self) -> Raster {
        Raster {
            width: self.width as int,
            height: self.height as int,
            pixels: Map::new(
                |p: (int, int)| 0 <= p.0 < self.width && 0 <= p.1 < self.height,
                |p: (int, int)| self.pixels@[offset(p, self.width as int)],
            ),
        }
    }
}

impl Clone for Image {
    /// Copies the image, pixel for pixel.
    fn clone(&self) -> (copy: Image)
        ensures
            copy@ == self@,
    {
        proof {
            use_type_invariant(self);
        }
        let pixels: Vec<Color> = self.pixels.clone();
        assert(pixels@ =~= self.pixels@);
        let copy = Image { width: self.width, height: self.height, pixels };
        assert(copy@.pixels =~= self@.pixels);
        copy
    }
}

impl Image {
    #[verifier::type_invariant]
    spec fn inv(self) -> bool {
        &&& 0 <= self.width
        &&& 0 <= self.height
        &&& self.pixels@.len() == self.width * self.height
        &&& self.width * self.height <= usize::MAX
    }

    /// Creates an image of the given size with every pixel set to `color`.
    pub fn gen_image_color(width: i32, height: i32, color: Color) -> (image: Image)
        requires
            0 <= width,
            0 <= height,
            width * height <= usize::MAX,
        ensures
            image@ == Raster::solid(width as int, height as int, color),
            image@.wf(),
    {
        let mut pixels: Vec<Color> = Vec::new();
        let mut y: i32 = 0;
        while y < height
            invariant
                0 <= y <= height,
                0 <= width,
                pixels@.len() == y * width,
                forall|i: int| 0 <= i < pixels@.len() ==> pixels@[i] == color,
            decreases height - y,
        {
            let mut x: i32 = 0;
            while x < width
                invariant
                    0 <= x <= width,
                    0 <= y < height,
                    pixels@.len() == y * width + x,
                    forall|i: int| 0 <= i < pixels@.len() ==> pixels@[i] == color,
                decreases width - x,
            {
                pixels.push(color);
                x = x + 1;
            }
            assert((y + 1) * width == y * width + width) by (nonlinear_arith);
            y = y + 1;
        }
        assert(height * width == width * height) by (nonlinear_arith);
        let image = Image { width, height, pixels };
        proof {
            assert forall|p: (int, int)| 0 <= p.0 < width && 0 <= p.1 < height implies 0
                <= #[trigger] offset(p, width as int) < width * height by {
                lemma_offset_in_range(p, width as int, height as int);
            }
            assert(image@.pixels =~= Raster::solid(width as int, height as int, color).pixels);
        }
        image
    }

    /// The number of pixels in a row.
    pub fn width(&self) -> (w: i32)
        ensures
            w == self@.width,
            self@.wf(),
    {
        proof {
            use_type_invariant(self);
        }
        self.width
    }

    /// The number of rows.
    pub fn height(&self) -> (h: i32)
        ensures
            h == self@.height,
            self@.wf(),
    {
        proof {
            use_type_invariant(self);
        }
        self.height
    }

    /// Reads the pixel at `(x, y)`, or `None` where the point lies outside
    /// the image.
    pub fn get_color(&self, x: i32, y: i32) -> (c: Option<Color>)
        ensures
            c == if self@.in_bounds((x as int, y as int)) {
                Some(self@.pixels[(x as int, y as int)])
            } else {
                None
            },
    {
        proof {
            use_type_invariant(self);
        }
        if x >= 0 && x < self.width && y >= 0 && y < self.height {
            proof {
                lemma_offset_in_range((x as int, y as int), self.width as int, self.height as int);
            }
            let i: usize = y as usize * self.width as usize + x as usize;
            Some(self.pixels[i])
        } else {
            None
        }
    }

    /// Writes `color` to the pixel at `(x, y)`. A point outside the image is
    /// dropped without effect.
    pub fn draw_pixel(&mut self, x: i32, y: i32, color: Color)
        ensures
            final(self)@ == old(self)@.painted(set![(x as int, y as int)], color),
    {
        proof {
            use_type_invariant(&*self);
        }
        if x >= 0 && x < self.width && y >= 0 && y < self.height {
            proof {
                lemma_offset_in_range((x as int, y as int), self.width as int, self.height as int);
            }
            let i: usize = y as usize * self.width as usize + x as usize;
            self.pixels[i] = color;
            proof {
                let w = self.width as int;
                let target = (x as int, y as int);
                let goal = old(self)@.painted(set![target], color);
                assert forall|p: (int, int)| self@.pixels.dom().contains(p) implies self@.pixels[p]
                    == goal.pixels[p] by {
                    lemma_offset_in_range(p, w, self.height as int);
                    if p != target && offset(p, w) == offset(target, w) {
                        lemma_offset_injective(p, target, w);
                    }
                }
                assert(self@.pixels =~= goal.pixels);
            }
        } else {
            assert(self@.pixels =~= old(self)@.painted(
                set![(x as int, y as int)],
                color,
            ).pixels);
        }
    }
}

} // verus!
