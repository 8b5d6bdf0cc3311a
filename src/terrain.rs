//! Height profiles of mountain ranges, grown by a random walk with momentum.
//!
//! Heights and slopes are kept in fixed point: `SUBPIXELS` units make one
//! pixel row, so a slope of `SUBPIXELS` climbs one row per column.
use vstd::prelude::*;
use vstd::arithmetic::div_mod::{lemma_div_is_ordered, lemma_fundamental_div_mod_converse};
use crate::random::RandomSource;
use crate::color::{Color, channel_between, interpolate, lemma_interpolate_monotonic, mix};
use crate::raster::PixelBuffer;

verus! {

/// Fixed-point units per pixel row.
pub const SUBPIXELS: i64 = 1000;

/// Bounds on the walk's steps and perturbations, in fixed-point units.
pub const STEP_LIMIT: i64 = 1_000_000_000;

/// Lowest and highest maximum slope a walk draws (0.9 and 1.1 rows per column).
pub const STEP_MAX_LO: i64 = 900;
pub const STEP_MAX_HI: i64 = 1100;

/// Lowest and highest perturbation bound a walk draws (0.15 and 0.35 rows).
pub const STEP_CHANGE_LO: i64 = 150;
pub const STEP_CHANGE_HI: i64 = 350;

/// The vertical band, in pixel rows (0 at the top), that a profile stays in.
#[derive(Clone, Copy, Debug, PartialEq, Eq, Structural)]
pub struct Band {
    pub min: u32,
    pub max: u32,
}

/// Where a walk starts and how hard it may turn, in fixed-point units.
#[derive(Clone, Copy, Debug, PartialEq, Eq, Structural)]
pub struct WalkParams {
    /// Largest slope magnitude.
    pub step_max: i64,
    /// Bound of the per-column slope perturbation.
    pub step_change: i64,
    /// Height before the first column.
    pub height: i64,
    /// Slope before the first column.
    pub slope: i64,
}

/// One height value per pixel column.
#[derive(Debug)]
pub struct Mountain {
    pub points: Vec<u32>,
}

/// Parameters a walk can start from: positive bounds, a start height inside
/// the band's range from the top of the image, and a start slope within the
/// bound.
pub open spec fn params_valid(band: Band, p: WalkParams) -> bool {
    &&& 0 < p.step_max <= STEP_LIMIT
    &&& 0 < p.step_change <= STEP_LIMIT
    &&& 0 <= p.height <= band.max * SUBPIXELS
    &&& -p.step_max <= p.slope <= p.step_max
}

/// Each draw lies in `0..step_change`.
pub open spec fn draws_valid(p: WalkParams, draws: Seq<i64>) -> bool {
    forall|i: int| 0 <= i < draws.len() ==> 0 <= #[trigger] draws[i] < p.step_change
}

pub open spec fn clamp_slope(s: int, m: int) -> int {
    if s > m {
        m
    } else if s < -m {
        -m
    } else {
        s
    }
}

/// One column of the walk from `(height, slope)` with draw `u`: move by the
/// slope, perturb the slope by `2u - step_change`, clamp it to `step_max`,
/// and bounce off the band's edges by pinning the height and negating the
/// slope.
pub open spec fn step(band: Band, p: WalkParams, st: (int, int), u: int) -> (int, int) {
    let h = st.0 + st.1;
    let s = clamp_slope(st.1 + (u * 2 - p.step_change), p.step_max as int);
    let top = band.max * SUBPIXELS;
    let bottom = band.min * SUBPIXELS;
    if h > top {
        (top, -s)
    } else if h < bottom {
        (bottom, -s)
    } else {
        (h, s)
    }
}

/// Height and slope after `n` columns.
pub open spec fn state_after(band: Band, p: WalkParams, draws: Seq<i64>, n: nat) -> (int, int)
    decreases n,
{
    if n == 0 {
        (p.height as int, p.slope as int)
    } else {
        step(band, p, state_after(band, p, draws, (n - 1) as nat), draws[n - 1] as int)
    }
}

/// The profile of a walk: the height after each column, truncated to a row.
pub open spec fn walk_profile(band: Band, p: WalkParams, draws: Seq<i64>) -> Seq<u32> {
    Seq::new(draws.len(), |i: int| (state_after(band, p, draws, (i + 1) as nat).0 / SUBPIXELS as int) as u32)
}

proof fn lemma_state_bounds(band: Band, p: WalkParams, draws: Seq<i64>, n: nat)
    requires
        band.min <= band.max,
        params_valid(band, p),
        draws_valid(p, draws),
        n <= draws.len(),
    ensures
        -p.step_max <= state_after(band, p, draws, n).1 <= p.step_max,
        n == 0 ==> 0 <= state_after(band, p, draws, n).0 <= band.max * SUBPIXELS,
        n > 0 ==> band.min * SUBPIXELS <= state_after(band, p, draws, n).0 <= band.max * SUBPIXELS,
    decreases n,
{
    if n > 0 {
        lemma_state_bounds(band, p, draws, (n - 1) as nat);
        assert(0 <= draws[n - 1] < p.step_change);
    }
}

/// The slope carried into every column is within `step_max` in magnitude.
/// Column `n + 1` first moves the height by exactly that slope, so every raw
/// move, before any bounce, is at most `step_max`.
pub proof fn lemma_slope_bounded(band: Band, p: WalkParams, draws: Seq<i64>, n: nat)
    requires
        band.min <= band.max,
        params_valid(band, p),
        draws_valid(p, draws),
        n < draws.len(),
    ensures
        -p.step_max <= state_after(band, p, draws, n).1 <= p.step_max,
{
    lemma_state_bounds(band, p, draws, n);
}

proof fn lemma_row_in_band(band: Band, h: int)
    requires
        band.min * SUBPIXELS <= h <= band.max * SUBPIXELS,
    ensures
        band.min <= h / SUBPIXELS as int <= band.max,
{
    lemma_div_is_ordered(band.min * SUBPIXELS, h, SUBPIXELS as int);
    lemma_div_is_ordered(h, band.max * SUBPIXELS, SUBPIXELS as int);
    lemma_fundamental_div_mod_converse(band.min * SUBPIXELS, SUBPIXELS as int, band.min as int, 0);
    lemma_fundamental_div_mod_converse(band.max * SUBPIXELS, SUBPIXELS as int, band.max as int, 0);
}

/// Every value of a walk's profile lies in the band.
pub proof fn lemma_profile_in_band(band: Band, p: WalkParams, draws: Seq<i64>)
    requires
        band.min <= band.max,
        params_valid(band, p),
        draws_valid(p, draws),
    ensures
        walk_profile(band, p, draws).len() == draws.len(),
        forall|i: int|
            0 <= i < draws.len() ==> band.min <= #[trigger] walk_profile(band, p, draws)[i]
                <= band.max,
{
    assert forall|i: int| 0 <= i < draws.len() implies band.min <= #[trigger] walk_profile(
        band,
        p,
        draws,
    )[i] <= band.max by {
        lemma_state_bounds(band, p, draws, (i + 1) as nat);
        lemma_row_in_band(band, state_after(band, p, draws, (i + 1) as nat).0);
    }
}

/// Height of the shadow band, counted from the ridge row itself: the ridge
/// keeps the layer's colour and the rows after it in the band are black.
pub const SHADOW_ROWS: u32 = 5;

/// Whether row `y` of column `x` lies on or under the ridge of `points`.
pub open spec fn covers(points: Seq<u32>, x: int, y: int) -> bool {
    0 <= x < points.len() && points[x] <= y
}

/// The colour a layer gives row `y` of a column whose ridge is at row
/// `ridge`: the layer's colour on the ridge itself, black for the rest of the
/// `SHADOW_ROWS` rows from the ridge down, then the blend from `color` to
/// `fog` at fraction `y / height`, so fog takes over towards the bottom of the
/// raster.
pub open spec fn fill_color(ridge: int, y: int, height: u32, color: Color, fog: Color) -> Color {
    if y == ridge {
        color
    } else if y - ridge < SHADOW_ROWS {
        Color { r: 0, g: 0, b: 0 }
    } else {
        mix(color, fog, y as nat, height as nat)
    }
}

/// Parameters in the ranges a fresh walk draws them from.
pub open spec fn params_drawn(band: Band, p: WalkParams) -> bool {
    &&& params_valid(band, p)
    &&& STEP_MAX_LO <= p.step_max < STEP_MAX_HI
    &&& STEP_CHANGE_LO <= p.step_change < STEP_CHANGE_HI
}

/// `points` is the profile, `width` columns long, of a walk in `band` whose
/// parameters and draws lie in the ranges that `Mountain::new` draws from.
pub open spec fn is_walk(band: Band, width: u32, points: Seq<u32>) -> bool {
    exists|p: WalkParams, draws: Seq<i64>|
        params_drawn(band, p) && draws_valid(p, draws) && draws.len() == width && points
            == #[trigger] walk_profile(band, p, draws)
}

/// The draws that `Mountain::new` makes for a walk from `p` with `draws`, in
/// order, as `(lo, hi, value)`: the maximum slope, the perturbation bound,
/// the start height (only when the band's top row is below row 0, as the
/// range is empty otherwise), the value `u` that sets the start slope to
/// `2u - step_max`, then one perturbation draw per column.
pub open spec fn walk_log(band: Band, p: WalkParams, draws: Seq<i64>) -> Seq<(int, int, int)> {
    let top = band.max * SUBPIXELS;
    let start = if top > 0 {
        seq![(0int, top, p.height as int)]
    } else {
        Seq::empty()
    };
    seq![
        (STEP_MAX_LO as int, STEP_MAX_HI as int, p.step_max as int),
        (STEP_CHANGE_LO as int, STEP_CHANGE_HI as int, p.step_change as int),
    ] + start + seq![(0int, p.step_max as int, (p.slope + p.step_max) / 2)] + Seq::new(
        draws.len(),
        |k: int| (0int, p.step_change as int, draws[k] as int),
    )
}

proof fn lemma_move_bounded(band: Band, p: WalkParams, draws: Seq<i64>, n: nat)
    requires
        band.min <= band.max,
        params_valid(band, p),
        draws_valid(p, draws),
        1 <= n < draws.len(),
    ensures
        -p.step_max <= state_after(band, p, draws, n + 1).0 - state_after(band, p, draws, n).0
            <= p.step_max,
{
    lemma_state_bounds(band, p, draws, n);
    lemma_state_bounds(band, p, draws, n + 1);
    assert(0 <= draws[n as int] < p.step_change);
}

/// Neighbouring columns of a profile differ by at most two rows: the height
/// moves by at most `step_max`, under 1.1 rows, and truncation adds less
/// than one row.
pub proof fn lemma_profile_steps(band: Band, p: WalkParams, draws: Seq<i64>, i: int)
    requires
        band.min <= band.max,
        params_drawn(band, p),
        draws_valid(p, draws),
        0 <= i,
        i + 1 < draws.len(),
    ensures
        -2 <= walk_profile(band, p, draws)[i + 1] - walk_profile(band, p, draws)[i] <= 2,
{
    let a = state_after(band, p, draws, (i + 1) as nat).0;
    let b = state_after(band, p, draws, (i + 2) as nat).0;
    lemma_move_bounded(band, p, draws, (i + 1) as nat);
    lemma_state_bounds(band, p, draws, (i + 1) as nat);
    lemma_state_bounds(band, p, draws, (i + 2) as nat);
    lemma_row_in_band(band, a);
    lemma_row_in_band(band, b);
    vstd::arithmetic::div_mod::lemma_fundamental_div_mod(a, SUBPIXELS as int);
    vstd::arithmetic::div_mod::lemma_fundamental_div_mod(b, SUBPIXELS as int);
    assert(walk_profile(band, p, draws)[i] == a / SUBPIXELS as int);
    assert(walk_profile(band, p, draws)[i + 1] == b / SUBPIXELS as int);
}

/// Below the shadow band each channel lies between the silhouette colour's
/// and the fog's, and moves from the former towards the latter going down.
pub proof fn lemma_fill_towards_fog(ridge: int, y1: int, y2: int, height: u32, color: Color, fog: Color)
    requires
        0 <= ridge,
        ridge + SHADOW_ROWS <= y1 <= y2 < height,
    ensures
        channel_between(color.r, fill_color(ridge, y1, height, color, fog).r, fill_color(ridge, y2, height, color, fog).r, fog.r),
        channel_between(color.g, fill_color(ridge, y1, height, color, fog).g, fill_color(ridge, y2, height, color, fog).g, fog.g),
        channel_between(color.b, fill_color(ridge, y1, height, color, fog).b, fill_color(ridge, y2, height, color, fog).b, fog.b),
{
    lemma_interpolate_monotonic(color, fog, y1 as nat, y2 as nat, height as nat);
}

/// What `Mountain::draw` with `points`, `color` and `fog` leaves: `after`
/// is `before` with the layer painted over it.
pub open spec fn drawn_over(points: Seq<u32>, before: PixelBuffer, after: PixelBuffer, color: Color, fog: Color) -> bool {
    forall|x: int, y: int|
        0 <= x < before.width && 0 <= y < before.height ==> #[trigger] after.at(x, y) == if covers(
            points,
            x,
            y,
        ) {
            fill_color(points[x] as int, y, before.height, color, fog)
        } else {
            before.at(x, y)
        }
}

/// A layer repaints pixels only in its colour, black or blends of its colour
/// and the fog: a pixel of any other colour after drawing had that colour before, so
/// drawing a layer never moves such a colour (a celestial body's, say) to
/// new places.
pub proof fn lemma_layer_adds_no_other_colour(
    points: Seq<u32>,
    before: PixelBuffer,
    after: PixelBuffer,
    color: Color,
    fog: Color,
    other: Color,
    x: int,
    y: int,
)
    requires
        drawn_over(points, before, after, color, fog),
        0 <= x < before.width,
        0 <= y < before.height,
        other != (Color { r: 0, g: 0, b: 0 }),
        other != color,
        forall|n: nat| n <= before.height ==> other != #[trigger] mix(color, fog, n, before.height as nat),
        after.at(x, y) == other,
    ensures
        before.at(x, y) == other,
{
    if covers(points, x, y) && y - points[x] >= SHADOW_ROWS {
        assert(other == mix(color, fog, y as nat, before.height as nat));
    }
}

impl Mountain {
    /// Paints the layer: for each column `x` of the profile, the ridge and
    /// every row below it down to the bottom of the raster take
    /// `fill_color`; other pixels are left alone.
    pub fn draw(&self, buf: &mut PixelBuffer, color: Color, fog: Color)
        requires
            old(buf).wf(),
            self.points.len() <= old(buf).width,
            forall|i: int| 0 <= i < self.points.len() ==> #[trigger] self.points@[i] < old(buf).height,
        ensures
            final(buf).width == old(buf).width,
            final(buf).height == old(buf).height,
            final(buf).wf(),
            drawn_over(self.points@, *old(buf), *final(buf), color, fog),
    {
        let ghost start = *buf;
        let height = buf.height;
        let mut i: usize = 0;
        while i < self.points.len()
            invariant
                buf.wf(),
                buf.width == start.width,
                buf.height == height,
                height == start.height,
                self.points.len() <= buf.width,
                forall|k: int| 0 <= k < self.points.len() ==> #[trigger] self.points@[k] < height,
                i <= self.points.len(),
                forall|x: int, y: int|
                    0 <= x < buf.width && 0 <= y < height ==> #[trigger] buf.at(x, y) == if x < i
                        && covers(self.points@, x, y) {
                        fill_color(self.points@[x] as int, y, height, color, fog)
                    } else {
                        start.at(x, y)
                    },
            decreases self.points.len() - i,
        {
            let point = self.points[i];
            buf.put_pixel(i as u32, point, color);
            let mut j: u32 = point + 1;
            while j < height
                invariant
                    buf.wf(),
                    buf.width == start.width,
                    buf.height == height,
                    height == start.height,
                    i < self.points.len() <= buf.width,
                    point == self.points@[i as int],
                    point < j <= height,
                    forall|x: int, y: int|
                        0 <= x < buf.width && 0 <= y < height ==> #[trigger] buf.at(x, y) == if x < i
                            && covers(self.points@, x, y) {
                            fill_color(self.points@[x] as int, y, height, color, fog)
                        } else if x == i && point <= y < j {
                            fill_color(point as int, y, height, color, fog)
                        } else {
                            start.at(x, y)
                        },
                decreases height - j,
            {
                if j - point < SHADOW_ROWS {
                    buf.put_pixel(i as u32, j, Color { r: 0, g: 0, b: 0 });
                } else {
                    buf.put_pixel(i as u32, j, interpolate(color, fog, j as u64, height as u64));
                }
                j = j + 1;
            }
            i = i + 1;
        }
    }

    /// The profile of the walk from `p` that uses `draws[i]` for the slope
    /// perturbation at column `i`.
    pub fn from_walk(band: Band, p: WalkParams, draws: &Vec<i64>) -> (m: Mountain)
        requires
            band.min <= band.max,
            params_valid(band, p),
            draws_valid(p, draws@),
        ensures
            m.points@ == walk_profile(band, p, draws@),
    {
        let top: i64 = band.max as i64 * SUBPIXELS;
        let bottom: i64 = band.min as i64 * SUBPIXELS;
        let mut height: i64 = p.height;
        let mut slope: i64 = p.slope;
        let mut points: Vec<u32> = Vec::new();
        let mut i: usize = 0;
        while i < draws.len()
            invariant
                band.min <= band.max,
                params_valid(band, p),
                draws_valid(p, draws@),
                top == band.max * SUBPIXELS,
                bottom == band.min * SUBPIXELS,
                i <= draws.len(),
                (height as int, slope as int) == state_after(band, p, draws@, i as nat),
                points.len() == i,
                forall|k: int|
                    0 <= k < i ==> points@[k] == #[trigger] walk_profile(band, p, draws@)[k],
            decreases draws.len() - i,
        {
            proof {
                lemma_state_bounds(band, p, draws@, i as nat);
                lemma_state_bounds(band, p, draws@, (i + 1) as nat);
            }
            let u = draws[i];
            height = height + slope;
            slope = slope + (u * 2 - p.step_change);
            if slope > p.step_max {
                slope = p.step_max;
            } else if slope < -p.step_max {
                slope = -p.step_max;
            }
            if height > top {
                height = top;
                slope = -slope;
            } else if height < bottom {
                height = bottom;
                slope = -slope;
            }
            proof {
                lemma_row_in_band(band, height as int);
            }
            points.push((height / SUBPIXELS) as u32);
            i = i + 1;
        }
        assert(points@ =~= walk_profile(band, p, draws@));
        Mountain { points }
    }

    /// A fresh profile of `width` columns in `band`: draws the walk's
    /// parameters and one perturbation per column from `rng`.
    pub fn new(band: Band, width: u32, rng: &mut RandomSource) -> (m: Mountain)
        requires
            band.min <= band.max,
        ensures
            m.points.len() == width,
            forall|i: int| 0 <= i < width ==> band.min <= #[trigger] m.points@[i] <= band.max,
            is_walk(band, width, m.points@),
            exists|p: WalkParams, draws: Seq<i64>|
                params_drawn(band, p) && draws_valid(p, draws) && draws.len() == width && m.points@
                    == walk_profile(band, p, draws) && final(rng).log() == old(rng).log()
                    + #[trigger] walk_log(band, p, draws),
    {
        let step_max = rng.range_i64(STEP_MAX_LO, STEP_MAX_HI);
        let step_change = rng.range_i64(STEP_CHANGE_LO, STEP_CHANGE_HI);
        let top: i64 = band.max as i64 * SUBPIXELS;
        let height: i64 = if top > 0 {
            rng.range_i64(0, top)
        } else {
            0
        };
        let turn = rng.range_i64(0, step_max);
        let slope = turn * 2 - step_max;
        let p = WalkParams { step_max, step_change, height, slope };
        let ghost head = rng.log();
        assert(head =~= old(rng).log() + walk_log(band, p, Seq::empty()));
        let mut draws: Vec<i64> = Vec::new();
        let mut i: u32 = 0;
        while i < width
            invariant
                i <= width,
                draws.len() == i,
                p.step_change == step_change,
                STEP_CHANGE_LO <= step_change,
                draws_valid(p, draws@),
                rng.log() == head + Seq::new(
                    draws@.len(),
                    |k: int| (0int, p.step_change as int, draws@[k] as int),
                ),
            decreases width - i,
        {
            let u = rng.range_i64(0, step_change);
            draws.push(u);
            assert(draws@[i as int] == u);
            assert(rng.log() =~= head + Seq::new(
                draws@.len(),
                |k: int| (0int, p.step_change as int, draws@[k] as int),
            ));
            i = i + 1;
        }
        let m = Mountain::from_walk(band, p, &draws);
        proof {
            lemma_profile_in_band(band, p, draws@);
            assert(rng.log() =~= old(rng).log() + walk_log(band, p, draws@));
        }
        m
    }
}

} // verus!
