//! Composition of a whole landscape: sky, an optional celestial body, a fog
//! wash and layered mountain ranges drawn back to front.
use vstd::prelude::*;
use vstd::arithmetic::div_mod::{lemma_div_is_ordered, lemma_fundamental_div_mod, lemma_fundamental_div_mod_converse};
use crate::color::{Color, interpolate, mix};
use crate::random::RandomSource;
use crate::raster::{PixelBuffer, byte_pixel, dist2, filled_circle, index_of, lemma_byte_pixel, lemma_index_in_grid, rgb_bytes};
use crate::terrain::{Band, Mountain, covers, fill_color, is_walk};

verus! {

/// Largest width or height of a scene.
pub const MAX_SIDE: u32 = 0x80_0000;

/// Width of the dark rim round a celestial body, in pixels.
pub const RIM: i32 = 5;

/// Size of an image in pixels.
#[derive(Clone, Copy, Debug, PartialEq, Eq, Structural)]
pub struct Resolution {
    pub width: u32,
    pub height: u32,
}

/// The colours a scene is painted with.
#[derive(Clone, Copy, Debug, PartialEq, Eq, Structural)]
pub struct Palette {
    pub sky: Color,
    pub fog: Color,
    pub mountain: Color,
}

/// Centre and radius of a celestial body's outline.
#[derive(Clone, Copy, Debug, PartialEq, Eq, Structural)]
pub struct Disc {
    pub x: i32,
    pub y: i32,
    pub radius: i32,
}

/// Each channel of `c` lies in its half-open range.
pub open spec fn color_within(c: Color, r: (int, int), g: (int, int), b: (int, int)) -> bool {
    r.0 <= c.r < r.1 && g.0 <= c.g < g.1 && b.0 <= c.b < b.1
}

/// One of the three sky families: dark, pale blue or bright neutral.
pub open spec fn sky_family(c: Color) -> bool {
    ||| color_within(c, (1, 40), (1, 40), (1, 40))
    ||| (215 <= c.r < 225 && 215 <= c.g < 225 && 230 <= c.b < 255)
    ||| color_within(c, (200, 255), (200, 255), (200, 255))
}

/// Every channel lies in `1..255`.
pub open spec fn any_color(c: Color) -> bool {
    1 <= c.r < 255 && 1 <= c.g < 255 && 1 <= c.b < 255
}

/// Lower edge (highest row number) shared by the bands of all layers of an
/// image `height` rows tall.
pub open spec fn band_max(height: u32) -> int {
    height as int * 5 / 6
}

/// Upper edge (lowest row number) of the band of layer `i` out of `count`:
/// nearer layers reach higher.
pub open spec fn band_min(height: u32, count: u32, i: u32) -> int {
    band_max(height) - (height as int / 2 / count as int) * (count as int - i as int)
}

/// A sky colour: one of three families, picked with equal chance, then each
/// channel drawn from the family's ranges.
pub fn sky_color(rng: &mut RandomSource) -> (c: Color)
    ensures
        sky_family(c),
{
    let family = rng.range_u32(1, 4);
    if family == 1 {
        rng.color_in((1, 40), (1, 40), (1, 40))
    } else if family == 2 {
        rng.color_in((215, 225), (215, 225), (230, 255))
    } else {
        rng.color_in((200, 255), (200, 255), (200, 255))
    }
}

/// The band of layer `i` of `count`: all layers share the lower edge at five
/// sixths of the height, and the band of layer `i` reaches
/// `(height / 2 / count) * (count - i)` rows above it.
pub fn layer_band(height: u32, count: u32, i: u32) -> (band: Band)
    requires
        0 < count,
        i < count,
    ensures
        band.max == band_max(height),
        band.min == band_min(height, count, i),
        band.min <= band.max,
{
    let max: u64 = (height as u64) * 5 / 6;
    let half: u64 = (height as u64) / 2;
    let per_layer: u64 = half / (count as u64);
    proof {
        lemma_fundamental_div_mod(half as int, count as int);
        assert(per_layer * (count - i) <= per_layer * count) by (nonlinear_arith)
            requires
                i < count,
        ;
        assert(per_layer * count <= half) by {
            vstd::arithmetic::mul::lemma_mul_is_commutative(per_layer as int, count as int);
        }
        lemma_fundamental_div_mod(height as int, 2);
        lemma_div_is_ordered(6 * half, (height as int) * 5, 6);
        lemma_fundamental_div_mod_converse(6 * half, 6, half as int, 0);
        lemma_div_is_ordered(0, (height as int) * 5, 6);
        lemma_div_is_ordered((height as int) * 5, (height as int) * 6, 6);
        lemma_fundamental_div_mod_converse((height as int) * 6, 6, height as int, 0);
    }
    let lift: u64 = per_layer * ((count - i) as u64);
    Band { min: (max - lift) as u32, max: max as u32 }
}

/// Colour of layer `i` of `count`: the blend from the sky to the base
/// mountain colour at fraction `(i + 1) / count`, so farther layers fade
/// towards the sky.
pub fn layer_color(mountain: Color, sky: Color, count: u32, i: u32) -> (c: Color)
    requires
        0 < count,
        i < count,
    ensures
        c == mix(sky, mountain, (i + 1) as nat, count as nat),
{
    interpolate(sky, mountain, (i as u64) + 1, count as u64)
}

/// Where a celestial body goes: centre in the middle eight tenths of the
/// width and between a tenth and a third of the height from the top, radius
/// between a sixth and a third of the height. `None` when the image is too
/// small for any of these ranges to hold a value.
pub fn place_disc(res: Resolution, rng: &mut RandomSource) -> (d: Option<Disc>)
    requires
        res.width <= MAX_SIDE,
        res.height <= MAX_SIDE,
    ensures
        d is None <==> !(res.width / 10 < res.width * 9 / 10 && res.height / 10 < res.height / 3
            && res.height / 6 < res.height / 3),
        d matches Some(disc) ==> res.width / 10 <= disc.x < res.width * 9 / 10 && res.height / 10
            <= disc.y < res.height / 3 && res.height / 6 <= disc.radius < res.height / 3,
{
    let x_lo = res.width / 10;
    let x_hi = ((res.width as u64) * 9 / 10) as u32;
    let y_lo = res.height / 10;
    let y_hi = res.height / 3;
    let r_lo = res.height / 6;
    if !(x_lo < x_hi && y_lo < y_hi && r_lo < y_hi) {
        return None;
    }
    let x = rng.range_u32(x_lo, x_hi);
    let y = rng.range_u32(y_lo, y_hi);
    let radius = rng.range_u32(r_lo, y_hi);
    Some(Disc { x: x as i32, y: y as i32, radius: radius as i32 })
}

/// Paints a celestial body: a black disc, then one `RIM` pixels smaller in
/// `body` on top of it. Every pixel it changes lies within `radius + 1` of
/// the centre, and every pixel that newly takes a body colour other than
/// black lies within `radius`: the body never shows outside its outline.
pub fn draw_celestial(buf: &mut PixelBuffer, disc: Disc, body: Color)
    requires
        old(buf).wf(),
        3 * old(buf).pixels.len() <= usize::MAX,
        0 <= disc.x <= MAX_SIDE,
        0 <= disc.y <= MAX_SIDE,
        0 <= disc.radius <= MAX_SIDE,
    ensures
        final(buf).wf(),
        final(buf).width == old(buf).width,
        final(buf).height == old(buf).height,
        rgb_bytes(final(buf).pixels@) == filled_circle(
            filled_circle(
                rgb_bytes(old(buf).pixels@),
                old(buf).width,
                old(buf).height,
                disc.x,
                disc.y,
                disc.radius,
                0,
                0,
                0,
            ),
            old(buf).width,
            old(buf).height,
            disc.x,
            disc.y,
            (disc.radius - RIM) as i32,
            body.r,
            body.g,
            body.b,
        ),
        forall|x: int, y: int|
            0 <= x < old(buf).width && 0 <= y < old(buf).height ==> (#[trigger] final(buf).at(x, y)
                != old(buf).at(x, y) ==> dist2(x, y, disc.x as int, disc.y as int) <= (disc.radius + 1)
                * (disc.radius + 1)),
        body != (Color { r: 0, g: 0, b: 0 }) ==> forall|x: int, y: int|
            0 <= x < old(buf).width && 0 <= y < old(buf).height && #[trigger] final(buf).at(x, y)
                == body && old(buf).at(x, y) != body ==> dist2(x, y, disc.x as int, disc.y as int)
                <= disc.radius * disc.radius,
{
    let ghost before = *buf;
    buf.draw_disc(disc.x, disc.y, disc.radius, Color { r: 0, g: 0, b: 0 });
    let ghost outlined = *buf;
    buf.draw_disc(disc.x, disc.y, disc.radius - RIM, body);
    proof {
        let r = disc.radius as int;
        assert forall|x: int, y: int|
            0 <= x < before.width && 0 <= y < before.height implies (#[trigger] buf.at(x, y)
                != before.at(x, y) ==> dist2(x, y, disc.x as int, disc.y as int) <= (r + 1) * (r + 1)) by {
            assert(outlined.at(x, y) == before.at(x, y) || dist2(x, y, disc.x as int, disc.y as int)
                <= (r + 1) * (r + 1));
            if 0 <= r - RIM {
                assert((r - RIM + 1) * (r - RIM + 1) <= (r + 1) * (r + 1)) by (nonlinear_arith)
                    requires
                        0 <= r - 5,
                ;
            }
        }
        if body != (Color { r: 0, g: 0, b: 0 }) {
            assert forall|x: int, y: int|
                0 <= x < before.width && 0 <= y < before.height && #[trigger] buf.at(x, y) == body
                    && before.at(x, y) != body implies dist2(x, y, disc.x as int, disc.y as int) <= r * r by {
                assert(outlined.at(x, y) == before.at(x, y) || outlined.at(x, y) == (Color { r: 0, g: 0, b: 0 }));
                if buf.at(x, y) == outlined.at(x, y) {
                } else {
                    assert((r - RIM + 1) * (r - RIM + 1) <= r * r) by (nonlinear_arith)
                        requires
                            0 <= r - 5,
                    ;
                }
            }
        }
    }
}

/// Every random choice of one scene.
pub struct Scene {
    pub palette: Palette,
    /// The celestial body's outline, if there is one.
    pub disc: Option<Disc>,
    /// Colour of the celestial body inside its outline.
    pub body: Color,
    /// Mountain layers from the farthest to the nearest.
    pub layers: Vec<Mountain>,
}

/// The layers fit the raster: one value per column at most, each
/// above the bottom row.
pub open spec fn layers_fit(res: Resolution, layers: Seq<Mountain>) -> bool {
    forall|k: int|
        0 <= k < layers.len() ==> #[trigger] layers[k].points.len() <= res.width && forall|x: int|
            0 <= x < layers[k].points.len() ==> #[trigger] layers[k].points@[x] < res.height
}

/// The band of layer `k` of `count` in an image `height` rows tall.
pub open spec fn band_of(height: u32, count: u32, k: int) -> Band {
    Band { min: band_min(height, count, k as u32) as u32, max: band_max(height) as u32 }
}

/// What `plan_scene` promises of the choices it draws.
pub open spec fn scene_valid(res: Resolution, s: Scene) -> bool {
    &&& sky_family(s.palette.sky)
    &&& any_color(s.palette.fog)
    &&& any_color(s.palette.mountain)
    &&& 4 <= s.layers.len() < 7
    &&& forall|k: int|
        0 <= k < s.layers.len() ==> #[trigger] s.layers@[k].points.len() == res.width && forall|x: int|
            0 <= x < res.width ==> band_min(res.height, s.layers.len() as u32, k as u32)
                <= #[trigger] s.layers@[k].points@[x] <= band_max(res.height)
    &&& forall|k: int|
        0 <= k < s.layers.len() ==> is_walk(
            band_of(res.height, s.layers.len() as u32, k),
            res.width,
            #[trigger] s.layers@[k].points@,
        )
    &&& s.disc is Some ==> exists|c: Color| any_color(c) && s.body == #[trigger] mix(c, s.palette.sky, 1, 2)
    &&& s.disc matches Some(d) ==> res.width / 10 <= d.x < res.width * 9 / 10 && res.height / 10
        <= d.y < res.height / 3 && res.height / 6 <= d.radius < res.height / 3
}

/// Draws a scene's choices in order: sky colour, fog colour, the celestial
/// body (with even chance: its place, then a colour blended halfway to the
/// sky), the number of layers in `4..7`, the base mountain colour, and one
/// profile per layer in the layer's band.
pub fn plan_scene(res: Resolution, rng: &mut RandomSource) -> (s: Scene)
    requires
        0 < res.height,
        res.width <= MAX_SIDE,
        res.height <= MAX_SIDE,
    ensures
        scene_valid(res, s),
        layers_fit(res, s.layers@),
{
    let sky = sky_color(rng);
    let fog = rng.color_in((1, 255), (1, 255), (1, 255));
    let mut disc: Option<Disc> = None;
    let mut body = sky;
    if rng.coin() {
        disc = place_disc(res, rng);
        if disc.is_some() {
            let c = rng.color_in((1, 255), (1, 255), (1, 255));
            body = interpolate(c, sky, 1, 2);
            assert(any_color(c) && body == mix(c, sky, 1, 2));
        }
    }
    assert(disc is Some ==> exists|c: Color| any_color(c) && body == #[trigger] mix(c, sky, 1, 2));
    let count = rng.range_u32(4, 7);
    let mountain = rng.color_in((1, 255), (1, 255), (1, 255));
    let mut layers: Vec<Mountain> = Vec::new();
    let mut i: u32 = 0;
    while i < count
        invariant
            0 < res.height,
            4 <= count < 7,
            i <= count,
            layers.len() == i,
            forall|k: int|
                0 <= k < i ==> #[trigger] layers@[k].points.len() == res.width && forall|x: int|
                    0 <= x < res.width ==> band_min(res.height, count, k as u32)
                        <= #[trigger] layers@[k].points@[x] <= band_max(res.height),
            forall|k: int|
                0 <= k < i ==> is_walk(band_of(res.height, count, k), res.width, #[trigger] layers@[k].points@),
            disc is Some ==> exists|c: Color| any_color(c) && body == #[trigger] mix(c, sky, 1, 2),
        decreases count - i,
    {
        let band = layer_band(res.height, count, i);
        let m = Mountain::new(band, res.width, rng);
        let ghost prev = layers@;
        let ghost gm = m;
        layers.push(m);
        proof {
            assert(layers@ == prev.push(gm));
            assert forall|k: int|
                0 <= k <= i implies #[trigger] layers@[k].points.len() == res.width && forall|x: int|
                0 <= x < res.width ==> band_min(res.height, count, k as u32)
                    <= #[trigger] layers@[k].points@[x] <= band_max(res.height) by {
                if k < i {
                    assert(layers@[k] == prev[k]);
                } else {
                    assert(layers@[k] == gm);
                    assert forall|x: int| 0 <= x < res.width implies band.min <= #[trigger] gm.points@[x]
                        <= band.max by {}
                    assert(k as u32 == i);
                }
            }
            assert(band == band_of(res.height, count, i as int));
            assert forall|k: int|
                0 <= k <= i implies is_walk(band_of(res.height, count, k), res.width, #[trigger] layers@[k].points@) by {
                if k < i {
                    assert(layers@[k] == prev[k]);
                    assert(is_walk(band_of(res.height, count, k), res.width, prev[k].points@));
                } else {
                    assert(layers@[k] == gm);
                    assert(band_of(res.height, count, k) == band);
                    assert(is_walk(band, res.width, gm.points@));
                }
            }
        }
        i = i + 1;
    }
    let s = Scene { palette: Palette { sky, fog, mountain }, disc, body, layers };
    proof {
        lemma_band_max_below(res.height);
        if s.disc is Some {
            let c = choose|c: Color| any_color(c) && body == #[trigger] mix(c, sky, 1, 2);
            assert(any_color(c) && s.body == mix(c, s.palette.sky, 1, 2));
        }
        assert(forall|k: int|
            0 <= k < s.layers.len() ==> is_walk(
                band_of(res.height, s.layers.len() as u32, k),
                res.width,
                #[trigger] s.layers@[k].points@,
            ));
    }
    s
}

proof fn lemma_band_max_below(height: u32)
    requires
        0 < height,
    ensures
        band_max(height) < height,
{
    lemma_div_is_ordered((height as int) * 5, (height as int) * 6 - 1, 6);
    lemma_fundamental_div_mod_converse((height as int) * 6 - 1, 6, height - 1, 5);
}

/// The raster filled with one colour, as bytes.
pub open spec fn plain_bytes(res: Resolution, c: Color) -> Seq<u8> {
    rgb_bytes(Seq::new((res.width * res.height) as nat, |i: int| c))
}

/// The raster's bytes once the sky is filled and the celestial body, if any,
/// is painted: its black outline, then its body `RIM` pixels smaller.
pub open spec fn backdrop_bytes(res: Resolution, s: Scene) -> Seq<u8> {
    let sky = plain_bytes(res, s.palette.sky);
    match s.disc {
        None => sky,
        Some(d) => filled_circle(
            filled_circle(sky, res.width, res.height, d.x, d.y, d.radius, 0, 0, 0),
            res.width,
            res.height,
            d.x,
            d.y,
            (d.radius - RIM) as i32,
            s.body.r,
            s.body.g,
            s.body.b,
        ),
    }
}

/// The colour of pixel `(x, y)` once the first `n` layers of `layers` are
/// drawn over a pixel of colour `base`: the nearest layer whose ridge is at
/// or above the pixel decides it; with none, it keeps `base`.
pub open spec fn layered(
    layers: Seq<Mountain>,
    n: nat,
    palette: Palette,
    height: u32,
    x: int,
    y: int,
    base: Color,
) -> Color
    decreases n,
{
    if n == 0 {
        base
    } else {
        let k = (n - 1) as nat;
        if covers(layers[k as int].points@, x, y) {
            fill_color(
                layers[k as int].points@[x] as int,
                y,
                height,
                mix(palette.sky, palette.mountain, n, layers.len()),
                palette.fog,
            )
        } else {
            layered(layers, k, palette, height, x, y, base)
        }
    }
}

/// The finished colour of pixel `(x, y)` of scene `s`: the backdrop, fogged
/// by its row, under all the layers.
pub open spec fn scene_pixel(res: Resolution, s: Scene, x: int, y: int) -> Color {
    let fogged = mix(
        s.palette.fog,
        byte_pixel(backdrop_bytes(res, s), index_of(res.width, x, y)),
        y as nat,
        2 * res.height as nat,
    );
    layered(s.layers@, s.layers.len() as nat, s.palette, res.height, x, y, fogged)
}

/// Paints scene `s`: sky, celestial body, fog wash, then the layers from the
/// farthest to the nearest, layer `k` of `n` in the blend from the sky to the
/// base mountain colour at fraction `(k + 1) / n`.
pub fn render(res: Resolution, s: &Scene) -> (buf: PixelBuffer)
    requires
        0 < res.height,
        res.width <= MAX_SIDE,
        res.height <= MAX_SIDE,
        3 * res.width * res.height <= usize::MAX,
        layers_fit(res, s.layers@),
        s.layers.len() <= u32::MAX,
        s.disc matches Some(d) ==> 0 <= d.x <= MAX_SIDE && 0 <= d.y <= MAX_SIDE && 0 <= d.radius
            <= MAX_SIDE,
    ensures
        buf.wf(),
        buf.width == res.width,
        buf.height == res.height,
        forall|x: int, y: int|
            0 <= x < res.width && 0 <= y < res.height ==> #[trigger] buf.at(x, y) == scene_pixel(
                res,
                *s,
                x,
                y,
            ),
{
    assert(res.width * res.height <= 3 * res.width * res.height) by (nonlinear_arith);
    let mut buf = PixelBuffer::from_pixel(res.width, res.height, s.palette.sky);
    assert(buf.pixels@ =~= Seq::new((res.width * res.height) as nat, |i: int| s.palette.sky));
    assert(3 * buf.pixels.len() == 3 * res.width * res.height) by (nonlinear_arith)
        requires
            buf.pixels.len() == res.width * res.height,
    ;
    match s.disc {
        Some(disc) => {
            draw_celestial(&mut buf, disc, s.body);
        },
        None => {},
    }
    let ghost backdrop = buf.pixels@;
    assert(rgb_bytes(backdrop) == backdrop_bytes(res, *s));
    buf.fog_wash(s.palette.fog);
    let count = s.layers.len();
    let mut i: usize = 0;
    while i < count
        invariant
            buf.wf(),
            buf.width == res.width,
            buf.height == res.height,
            rgb_bytes(backdrop) == backdrop_bytes(res, *s),
            backdrop.len() == res.width * res.height,
            count == s.layers.len() <= u32::MAX,
            layers_fit(res, s.layers@),
            i <= count,
            forall|x: int, y: int|
                0 <= x < res.width && 0 <= y < res.height ==> #[trigger] buf.at(x, y) == layered(
                    s.layers@,
                    i as nat,
                    s.palette,
                    res.height,
                    x,
                    y,
                    mix(
                        s.palette.fog,
                        backdrop[index_of(res.width, x, y)],
                        y as nat,
                        2 * res.height as nat,
                    ),
                ),
        decreases count - i,
    {
        let color = layer_color(s.palette.mountain, s.palette.sky, count as u32, i as u32);
        assert(s.layers@[i as int].points.len() <= res.width);
        s.layers[i].draw(&mut buf, color, s.palette.fog);
        i = i + 1;
    }
    proof {
        assert forall|x: int, y: int|
            0 <= x < res.width && 0 <= y < res.height implies #[trigger] buf.at(x, y) == scene_pixel(
            res,
            *s,
            x,
            y,
        ) by {
            lemma_index_in_grid(res.width, res.height, x, y);
            lemma_byte_pixel(backdrop, index_of(res.width, x, y));
        }
    }
    buf
}

/// A whole landscape at `res`: the choices of `plan_scene`, painted by
/// `render`.
pub fn compose(res: Resolution, rng: &mut RandomSource) -> (buf: PixelBuffer)
    requires
        0 < res.height,
        res.width <= MAX_SIDE,
        res.height <= MAX_SIDE,
        3 * res.width * res.height <= usize::MAX,
    ensures
        buf.wf(),
        buf.width == res.width,
        buf.height == res.height,
        exists|s: Scene|
            #[trigger] scene_valid(res, s) && forall|x: int, y: int|
                0 <= x < res.width && 0 <= y < res.height ==> #[trigger] buf.at(x, y) == scene_pixel(
                    res,
                    s,
                    x,
                    y,
                ),
{
    let s = plan_scene(res, rng);
    proof {
        if let Some(d) = s.disc {
            assert(d.x < res.width * 9 / 10 <= MAX_SIDE);
            assert(d.radius < res.height / 3 <= MAX_SIDE);
        }
    }
    let buf = render(res, &s);
    assert(scene_valid(res, s));
    buf
}

} // verus!
