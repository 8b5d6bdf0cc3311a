//! A width × height grid of colours, stored row by row.
use vstd::prelude::*;
use vstd::arithmetic::div_mod::lemma_fundamental_div_mod;
use crate::color::{Color, interpolate, mix};

verus! {

/// Pixels of a raster, row-major: pixel `(x, y)` is `pixels[y * width + x]`.
#[derive(Debug)]
pub struct PixelBuffer {
    pub width: u32,
    pub height: u32,
    pub pixels: Vec<Color>,
}

/// Index of pixel `(x, y)` in a row-major grid `width` wide.
pub open spec fn index_of(width: u32, x: int, y: int) -> int {
    y * width + x
}

/// The raster's pixels as bytes, three per pixel in red, green, blue order.
pub open spec fn rgb_bytes(pixels: Seq<Color>) -> Seq<u8> {
    Seq::new(
        3 * pixels.len(),
        |i: int|
            if i % 3 == 0 {
                pixels[i / 3].r
            } else if i % 3 == 1 {
                pixels[i / 3].g
            } else {
                pixels[i / 3].b
            },
    )
}

pub proof fn lemma_index_in_grid(width: u32, height: u32, x: int, y: int)
    requires
        0 <= x < width,
        0 <= y < height,
    ensures
        0 <= index_of(width, x, y) < width * height,
{
    assert(0 <= y * width + x < width * height) by (nonlinear_arith)
        requires
            0 <= x < width,
            0 <= y < height,
    ;
}

proof fn lemma_index_distinct(width: u32, x1: int, y1: int, x2: int, y2: int)
    requires
        0 <= x1 < width,
        0 <= x2 < width,
        0 <= y1,
        0 <= y2,
        index_of(width, x1, y1) == index_of(width, x2, y2),
    ensures
        x1 == x2 && y1 == y2,
{
    lemma_row_of_index(width, x1, y1);
    lemma_row_of_index(width, x2, y2);
}

impl PixelBuffer {
    /// The pixel count matches the dimensions.
    pub open spec fn wf(&self) -> bool {
        self.pixels.len() == self.width * self.height
    }

    /// The colour of pixel `(x, y)`.
    pub open spec fn at(&self, x: int, y: int) -> Color {
        self.pixels@[index_of(self.width, x, y)]
    }

    /// A `width` × `height` raster with every pixel `fill`.
    pub fn from_pixel(width: u32, height: u32, fill: Color) -> (buf: PixelBuffer)
        requires
            width * height <= usize::MAX,
        ensures
            buf.wf(),
            buf.width == width,
            buf.height == height,
            forall|i: int| 0 <= i < buf.pixels.len() ==> #[trigger] buf.pixels@[i] == fill,
    {
        let n: usize = (width as usize) * (height as usize);
        let mut pixels: Vec<Color> = Vec::new();
        let mut i: usize = 0;
        while i < n
            invariant
                i <= n,
                pixels.len() == i,
                forall|k: int| 0 <= k < i ==> #[trigger] pixels@[k] == fill,
            decreases n - i,
        {
            pixels.push(fill);
            i = i + 1;
        }
        PixelBuffer { width, height, pixels }
    }

    /// The colour of pixel `(x, y)`.
    pub fn get_pixel(&self, x: u32, y: u32) -> (c: Color)
        requires
            self.wf(),
            x < self.width,
            y < self.height,
        ensures
            c == self.at(x as int, y as int),
    {
        proof {
            lemma_index_in_grid(self.width, self.height, x as int, y as int);
        }
        self.pixels[(y as usize) * (self.width as usize) + (x as usize)]
    }

    /// Sets pixel `(x, y)` to `c` and leaves every other pixel as it was.
    pub fn put_pixel(&mut self, x: u32, y: u32, c: Color)
        requires
            old(self).wf(),
            x < old(self).width,
            y < old(self).height,
        ensures
            final(self).width == old(self).width,
            final(self).height == old(self).height,
            final(self).wf(),
            final(self).pixels@ == old(self).pixels@.update(
                index_of(old(self).width, x as int, y as int),
                c,
            ),
            forall|px: int, py: int|
                0 <= px < old(self).width && 0 <= py < old(self).height ==> #[trigger] final(self).at(px, py)
                    == if px == x && py == y {
                    c
                } else {
                    old(self).at(px, py)
                },
    {
        proof {
            lemma_index_in_grid(self.width, self.height, x as int, y as int);
        }
        let ghost before = *self;
        let i = (y as usize) * (self.width as usize) + (x as usize);
        self.pixels.set(i, c);
        proof {
            assert forall|px: int, py: int|
                0 <= px < self.width && 0 <= py < self.height implies #[trigger] self.at(px, py) == if px
                == x && py == y {
                c
            } else {
                before.at(px, py)
            } by {
                lemma_index_in_grid(self.width, self.height, px, py);
                if index_of(self.width, px, py) == i {
                    lemma_index_distinct(self.width, px, py, x as int, y as int);
                }
            }
        }
    }

    /// The pixels as bytes, three per pixel in red, green, blue order.
    pub fn to_rgb_bytes(&self) -> (bytes: Vec<u8>)
        requires
            3 * self.pixels.len() <= usize::MAX,
        ensures
            bytes@ == rgb_bytes(self.pixels@),
    {
        let mut bytes: Vec<u8> = Vec::new();
        let mut i: usize = 0;
        while i < self.pixels.len()
            invariant
                3 * self.pixels.len() <= usize::MAX,
                i <= self.pixels.len(),
                bytes.len() == 3 * i,
                forall|k: int| 0 <= k < 3 * i ==> bytes@[k] == #[trigger] rgb_bytes(self.pixels@)[k],
            decreases self.pixels.len() - i,
        {
            let c = self.pixels[i];
            bytes.push(c.r);
            bytes.push(c.g);
            bytes.push(c.b);
            proof {
                assert forall|k: int| 3 * i <= k < 3 * i + 3 implies bytes@[k] == #[trigger] rgb_bytes(
                    self.pixels@,
                )[k] by {
                    lemma_fundamental_div_mod(k, 3);
                    assert(k / 3 == i && k % 3 == k - 3 * i) by {
                        vstd::arithmetic::div_mod::lemma_fundamental_div_mod_converse(k, 3, i as int, k - 3 * i);
                    }
                }
            }
            i = i + 1;
        }
        assert(bytes@ =~= rgb_bytes(self.pixels@));
        bytes
    }

    /// The raster whose pixels are `bytes`, three per pixel in red, green,
    /// blue order; `None` unless there are exactly `3 * width * height` bytes.
    pub fn from_rgb_bytes(width: u32, height: u32, bytes: &Vec<u8>) -> (r: Option<PixelBuffer>)
        ensures
            r is None <==> bytes.len() != 3 * width * height,
            r matches Some(buf) ==> buf.wf() && buf.width == width && buf.height == height
                && rgb_bytes(buf.pixels@) == bytes@,
    {
        assert((width as u64) * (height as u64) <= u64::MAX) by (nonlinear_arith)
            requires
                width <= u32::MAX,
                height <= u32::MAX,
        ;
        let n: u64 = (width as u64) * (height as u64);
        proof {
            lemma_fundamental_div_mod(bytes.len() as int, 3);
            assert(3 * width * height == 3 * (n as int)) by (nonlinear_arith)
                requires
                    n == width * height,
            ;
        }
        if bytes.len() % 3 != 0 || bytes.len() as u64 / 3 != n {
            return None;
        }
        let n: usize = bytes.len() / 3;
        let mut pixels: Vec<Color> = Vec::new();
        let mut i: usize = 0;
        while i < n
            invariant
                n * 3 == bytes.len(),
                i <= n,
                pixels.len() == i,
                forall|k: int|
                    0 <= k < i ==> #[trigger] pixels@[k] == (Color {
                        r: bytes@[3 * k],
                        g: bytes@[3 * k + 1],
                        b: bytes@[3 * k + 2],
                    }),
            decreases n - i,
        {
            pixels.push(Color { r: bytes[3 * i], g: bytes[3 * i + 1], b: bytes[3 * i + 2] });
            i = i + 1;
        }
        proof {
            assert forall|k: int| 0 <= k < bytes.len() implies #[trigger] rgb_bytes(pixels@)[k]
                == bytes@[k] by {
                lemma_fundamental_div_mod(k, 3);
                let q = k / 3;
                assert(0 <= q < n);
                assert(pixels@[q] == (Color {
                    r: bytes@[3 * q],
                    g: bytes@[3 * q + 1],
                    b: bytes@[3 * q + 2],
                }));
            }
            assert(rgb_bytes(pixels@) =~= bytes@);
        }
        Some(PixelBuffer { width, height, pixels })
    }
}

/// The bytes of an RGB raster after a filled circle of colour `(r, g, b)` is
/// painted on it, as imageproc rasterises circles.
pub uninterp spec fn filled_circle(
    bytes: Seq<u8>,
    width: u32,
    height: u32,
    cx: i32,
    cy: i32,
    radius: i32,
    r: u8,
    g: u8,
    b: u8,
) -> Seq<u8>;

/// Largest magnitude of a circle's centre coordinates and radius: sums of
/// two of them stay within 2^24, where `f32` holds every integer exactly.
pub const CIRCLE_LIMIT: i32 = 0x80_0000;

/// Squared distance from `(x, y)` to `(cx, cy)`.
pub open spec fn dist2(x: int, y: int, cx: int, cy: int) -> int {
    (x - cx) * (x - cx) + (y - cy) * (y - cy)
}

/// The colour of pixel `i` in a byte raster.
pub open spec fn byte_pixel(bytes: Seq<u8>, i: int) -> Color {
    Color { r: bytes[3 * i], g: bytes[3 * i + 1], b: bytes[3 * i + 2] }
}

/// `after` differs from `before` only in pixels that lie within `radius + 1`
/// of `(cx, cy)` and now hold `c`; with a negative radius, nowhere.
pub open spec fn painted_within(
    before: Seq<u8>,
    after: Seq<u8>,
    width: u32,
    height: u32,
    cx: int,
    cy: int,
    radius: int,
    c: Color,
) -> bool {
    forall|x: int, y: int|
        0 <= x < width && 0 <= y < height ==> #[trigger] byte_pixel(after, index_of(width, x, y))
            == byte_pixel(before, index_of(width, x, y)) || (0 <= radius && byte_pixel(
            after,
            index_of(width, x, y),
        ) == c && dist2(x, y, cx, cy) <= (radius + 1) * (radius + 1))
}

pub proof fn lemma_byte_pixel(pixels: Seq<Color>, i: int)
    requires
        0 <= i < pixels.len(),
    ensures
        byte_pixel(rgb_bytes(pixels), i) == pixels[i],
{
    vstd::arithmetic::div_mod::lemma_fundamental_div_mod_converse(3 * i, 3, i, 0);
    vstd::arithmetic::div_mod::lemma_fundamental_div_mod_converse(3 * i + 1, 3, i, 1);
    vstd::arithmetic::div_mod::lemma_fundamental_div_mod_converse(3 * i + 2, 3, i, 2);
}

/// Relies on image's `RgbImage::from_raw` and `into_raw`, which view the same
/// bytes as a raster and hand them back, and on imageproc's
/// `drawing::draw_filled_circle_mut`, which paints the circle clipped to the
/// raster and touches nothing else of it. Its midpoint loop runs while
/// `x <= y` and keeps `x^2 + y^2 <= radius^2 + radius`; each span it draws
/// through `draw_line_segment_mut` is a row from `-x` to `x` (or `-y` to `y`)
/// about the centre, with coordinates passed as `f32`, exact under
/// `CIRCLE_LIMIT`. So every pixel it sets lies within `radius + 1` of the
/// centre and takes `c`, and a negative radius draws nothing.
#[verifier::external_body]
fn paint_filled_circle(bytes: Vec<u8>, width: u32, height: u32, cx: i32, cy: i32, radius: i32, c: Color) -> (out: Vec<u8>)
    requires
        bytes.len() == 3 * width * height,
        -CIRCLE_LIMIT <= cx <= CIRCLE_LIMIT,
        -CIRCLE_LIMIT <= cy <= CIRCLE_LIMIT,
        -CIRCLE_LIMIT <= radius <= CIRCLE_LIMIT,
    ensures
        out@ == filled_circle(bytes@, width, height, cx, cy, radius, c.r, c.g, c.b),
        out.len() == bytes.len(),
        painted_within(bytes@, out@, width, height, cx as int, cy as int, radius as int, c),
{
    let mut img = image::RgbImage::from_raw(width, height, bytes).unwrap();
    let px = image::Rgb([c.r, c.g, c.b]);
    imageproc::drawing::draw_filled_circle_mut(&mut img, (cx, cy), radius, px);
    img.into_raw()
}

proof fn lemma_row_of_index(width: u32, x: int, y: int)
    requires
        0 <= x < width,
        0 <= y,
    ensures
        index_of(width, x, y) / (width as int) == y,
{
    vstd::arithmetic::div_mod::lemma_fundamental_div_mod_converse(y * width + x, width as int, y, x);
}

impl PixelBuffer {
    /// Fogs the raster: every pixel in row `y` becomes the blend from `fog`
    /// to its colour at fraction `y / (2 * height)`.
    pub fn fog_wash(&mut self, fog: Color)
        requires
            old(self).wf(),
        ensures
            final(self).width == old(self).width,
            final(self).height == old(self).height,
            final(self).wf(),
            forall|x: int, y: int|
                0 <= x < old(self).width && 0 <= y < old(self).height ==> #[trigger] final(self).at(x, y)
                    == mix(fog, old(self).at(x, y), y as nat, 2 * old(self).height as nat),
    {
        let n = self.pixels.len();
        let w = self.width;
        let den: u64 = 2 * (self.height as u64);
        let mut i: usize = 0;
        while i < n
            invariant
                n == self.pixels.len(),
                n == w * self.height,
                w == self.width,
                self.width == old(self).width,
                self.height == old(self).height,
                den == 2 * self.height,
                i <= n,
                forall|k: int|
                    0 <= k < i ==> #[trigger] self.pixels@[k] == mix(
                        fog,
                        old(self).pixels@[k],
                        (k / (w as int)) as nat,
                        den as nat,
                    ),
                forall|k: int| i <= k < n ==> #[trigger] self.pixels@[k] == old(self).pixels@[k],
            decreases n - i,
        {
            assert(w > 0 && self.height > 0) by (nonlinear_arith)
                requires
                    i < n,
                    n == w * self.height,
            ;
            let y = (i / (w as usize)) as u64;
            let c = interpolate(fog, self.pixels[i], y, den);
            self.pixels.set(i, c);
            i = i + 1;
        }
        proof {
            assert forall|x: int, y: int|
                0 <= x < old(self).width && 0 <= y < old(self).height implies #[trigger] self.at(x, y)
                    == mix(fog, old(self).at(x, y), y as nat, 2 * old(self).height as nat) by {
                lemma_index_in_grid(w, self.height, x, y);
                lemma_row_of_index(w, x, y);
            }
        }
    }

    /// Paints a filled circle of colour `c` centred on `(cx, cy)`, clipped to
    /// the raster.
    pub fn draw_disc(&mut self, cx: i32, cy: i32, radius: i32, c: Color)
        requires
            old(self).wf(),
            3 * old(self).pixels.len() <= usize::MAX,
            -CIRCLE_LIMIT <= cx <= CIRCLE_LIMIT,
            -CIRCLE_LIMIT <= cy <= CIRCLE_LIMIT,
            -CIRCLE_LIMIT <= radius <= CIRCLE_LIMIT,
        ensures
            final(self).width == old(self).width,
            final(self).height == old(self).height,
            final(self).wf(),
            rgb_bytes(final(self).pixels@) == filled_circle(
                rgb_bytes(old(self).pixels@),
                old(self).width,
                old(self).height,
                cx,
                cy,
                radius,
                c.r,
                c.g,
                c.b,
            ),
            forall|x: int, y: int|
                0 <= x < old(self).width && 0 <= y < old(self).height ==> #[trigger] final(self).at(x, y)
                    == old(self).at(x, y) || (0 <= radius && final(self).at(x, y) == c && dist2(
                    x,
                    y,
                    cx as int,
                    cy as int,
                ) <= (radius + 1) * (radius + 1)),
    {
        let ghost before = *self;
        let bytes = self.to_rgb_bytes();
        assert(bytes.len() == 3 * self.width * self.height) by (nonlinear_arith)
            requires
                bytes.len() == 3 * self.pixels.len(),
                self.pixels.len() == self.width * self.height,
        ;
        let painted = paint_filled_circle(bytes, self.width, self.height, cx, cy, radius, c);
        match PixelBuffer::from_rgb_bytes(self.width, self.height, &painted) {
            Some(buf) => {
                self.pixels = buf.pixels;
            },
            None => {},
        }
        proof {
            assert forall|x: int, y: int|
                0 <= x < before.width && 0 <= y < before.height implies #[trigger] self.at(x, y)
                    == before.at(x, y) || (0 <= radius && self.at(x, y) == c && dist2(
                    x,
                    y,
                    cx as int,
                    cy as int,
                ) <= (radius + 1) * (radius + 1)) by {
                lemma_index_in_grid(before.width, before.height, x, y);
                let i = index_of(before.width, x, y);
                lemma_byte_pixel(before.pixels@, i);
                lemma_byte_pixel(self.pixels@, i);
                assert(byte_pixel(painted@, i) == byte_pixel(bytes@, i) || (0 <= radius && byte_pixel(painted@, i) == c
                    && dist2(x, y, cx as int, cy as int) <= (radius + 1) * (radius + 1)));
            }
        }
    }
}

} // verus!
