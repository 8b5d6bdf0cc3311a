use landscape::color::{interpolate, Color};
use landscape::random::RandomSource;
use landscape::raster::PixelBuffer;
use landscape::scene::{
    compose, draw_celestial, layer_band, layer_color, place_disc, plan_scene, render, sky_color,
    Disc, Palette, Resolution, Scene,
};
use landscape::terrain::{Band, Mountain, WalkParams};

const RED: Color = Color { r: 255, g: 0, b: 0 };
const BLUE: Color = Color { r: 0, g: 0, b: 255 };
const BLACK: Color = Color { r: 0, g: 0, b: 0 };

fn in_sky_family(c: Color) -> bool {
    let all_in = |lo: u8, hi: u8| (lo..hi).contains(&c.r) && (lo..hi).contains(&c.g) && (lo..hi).contains(&c.b);
    all_in(1, 40)
        || ((215..225).contains(&c.r) && (215..225).contains(&c.g) && (230..255).contains(&c.b))
        || all_in(200, 255)
}

#[test]
fn interpolate_ends_are_exact() {
    let a = Color { r: 12, g: 200, b: 77 };
    let b = Color { r: 250, g: 3, b: 128 };
    for den in [1u64, 2, 7, 10, 3000] {
        assert_eq!(interpolate(a, b, 0, den), a);
        assert_eq!(interpolate(a, b, den, den), b);
    }
}

#[test]
fn interpolate_rounds_to_nearest() {
    let black = Color { r: 0, g: 0, b: 0 };
    let white = Color { r: 255, g: 255, b: 255 };
    assert_eq!(interpolate(black, white, 1, 2), Color { r: 128, g: 128, b: 128 });
    let a = Color { r: 10, g: 20, b: 30 };
    let b = Color { r: 20, g: 40, b: 60 };
    assert_eq!(interpolate(a, b, 1, 4), Color { r: 13, g: 25, b: 38 });
}

#[test]
fn interpolate_clamps_fraction_above_one() {
    let a = Color { r: 1, g: 2, b: 3 };
    let b = Color { r: 100, g: 50, b: 25 };
    assert_eq!(interpolate(a, b, 5, 2), b);
}

#[test]
fn interpolate_is_monotonic_in_fraction() {
    let a = Color { r: 10, g: 240, b: 90 };
    let b = Color { r: 200, g: 15, b: 90 };
    let mut prev = interpolate(a, b, 0, 20);
    for n in 1..=20u64 {
        let c = interpolate(a, b, n, 20);
        assert!(prev.r <= c.r && c.r <= b.r);
        assert!(prev.g >= c.g && c.g >= b.g);
        assert_eq!(c.b, 90);
        prev = c;
    }
}

fn params(step_max: i64, height: i64, slope: i64) -> WalkParams {
    WalkParams { step_max, step_change: 200, height, slope }
}

#[test]
fn walk_with_zero_perturbation_is_flat() {
    let band = Band { min: 2, max: 8 };
    let m = Mountain::from_walk(band, params(1000, 5000, 0), &vec![100; 6]);
    assert_eq!(m.points, vec![5, 5, 5, 5, 5, 5]);
}

#[test]
fn walk_bounces_off_both_edges() {
    let band = Band { min: 2, max: 8 };
    let m = Mountain::from_walk(band, params(1000, 5000, 1000), &vec![100; 12]);
    assert_eq!(m.points, vec![6, 7, 8, 8, 7, 6, 5, 4, 3, 2, 2, 3]);
}

#[test]
fn walk_slope_is_clamped() {
    // every draw pushes the slope up by 198, but it never passes 1000
    let band = Band { min: 0, max: 100 };
    let m = Mountain::from_walk(band, params(1000, 0, 900), &vec![199; 5]);
    assert_eq!(m.points, vec![0, 1, 2, 3, 4]);
}

#[test]
fn profile_length_matches_width() {
    let mut rng = RandomSource::from_seed(7);
    let band = Band { min: 2, max: 8 };
    for width in [0u32, 1, 2, 10, 333] {
        let m = Mountain::new(band, width, &mut rng);
        assert_eq!(m.points.len(), width as usize);
    }
}

#[test]
fn profile_stays_in_band() {
    for seed in 0..40u64 {
        let mut rng = RandomSource::from_seed(seed);
        for band in [Band { min: 2, max: 8 }, Band { min: 5, max: 5 }, Band { min: 0, max: 0 }, Band { min: 100, max: 2500 }] {
            let m = Mountain::new(band, 200, &mut rng);
            assert!(m.points.iter().all(|&h| band.min <= h && h <= band.max));
        }
    }
}

#[test]
fn profile_moves_at_most_two_rows_per_column() {
    // the slope never exceeds 1.1 rows, so truncated heights differ by at most 2
    for seed in 0..40u64 {
        let mut rng = RandomSource::from_seed(seed);
        let m = Mountain::new(Band { min: 0, max: 1000 }, 300, &mut rng);
        for w in m.points.windows(2) {
            assert!((w[0] as i64 - w[1] as i64).abs() <= 2);
        }
    }
}

#[test]
fn draw_paints_shadow_then_fog_gradient() {
    let sky = Color { r: 9, g: 9, b: 9 };
    let mut buf = PixelBuffer::from_pixel(2, 10, sky);
    let m = Mountain { points: vec![2] };
    m.draw(&mut buf, RED, BLUE);
    assert_eq!(buf.get_pixel(0, 0), sky);
    assert_eq!(buf.get_pixel(0, 1), sky);
    // the ridge keeps the layer colour, the four rows under it are black
    assert_eq!(buf.get_pixel(0, 2), RED);
    for y in 3..7 {
        assert_eq!(buf.get_pixel(0, y), BLACK);
    }
    for y in 7..10 {
        assert_eq!(buf.get_pixel(0, y), interpolate(RED, BLUE, y as u64, 10));
    }
    assert_eq!(buf.get_pixel(0, 9), Color { r: 26, g: 0, b: 230 });
    // going down, red gives way to the fog's blue
    assert!(buf.get_pixel(0, 7).r > buf.get_pixel(0, 8).r);
    assert!(buf.get_pixel(0, 8).b < buf.get_pixel(0, 9).b);
    for y in 0..10 {
        assert_eq!(buf.get_pixel(1, y), sky);
    }
}

#[test]
fn end_to_end_ten_by_ten() {
    let mut rng = RandomSource::from_seed(2024);
    let band = Band { min: 2, max: 8 };
    let m = Mountain::new(band, 10, &mut rng);
    assert_eq!(m.points.len(), 10);
    assert!(m.points.iter().all(|&h| (2..=8).contains(&h)));
    let sky = Color { r: 1, g: 2, b: 3 };
    let mut buf = PixelBuffer::from_pixel(10, 10, sky);
    m.draw(&mut buf, RED, BLUE);
    assert_eq!((buf.width, buf.height), (10, 10));
    for (x, &h) in m.points.iter().enumerate() {
        let x = x as u32;
        // the ridge keeps the silhouette colour, the shadow band follows
        assert_eq!(buf.get_pixel(x, h), RED);
        for y in h + 1..(h + 5).min(10) {
            assert_eq!(buf.get_pixel(x, y), BLACK);
        }
        for y in 0..h {
            assert_eq!(buf.get_pixel(x, y), sky);
        }
        let bottom = buf.get_pixel(x, 9);
        if 9 - h < 5 {
            assert_eq!(bottom, BLACK);
        } else {
            assert_eq!(bottom, interpolate(RED, BLUE, 9, 10));
        }
        // fog dominates the bottom row
        assert!(bottom.b >= bottom.r);
    }
}

#[test]
fn celestial_body_stays_inside_outline() {
    let white = Color { r: 255, g: 255, b: 255 };
    let body = Color { r: 0, g: 200, b: 0 };
    for (cx, cy, radius) in [(50, 50, 20), (5, 40, 30), (60, 10, 12), (50, 50, 6)] {
        let mut buf = PixelBuffer::from_pixel(100, 80, white);
        draw_celestial(&mut buf, Disc { x: cx, y: cy, radius }, body);
        let mut painted = 0;
        for y in 0..80u32 {
            for x in 0..100u32 {
                let c = buf.get_pixel(x, y);
                let (dx, dy) = (x as i64 - cx as i64, y as i64 - cy as i64);
                if c == body {
                    painted += 1;
                    assert!(dx * dx + dy * dy <= (radius as i64) * (radius as i64));
                }
                if c != white {
                    assert!(dx * dx + dy * dy <= (radius as i64 + 1) * (radius as i64 + 1));
                }
            }
        }
        assert!(painted > 0);
        // the centre carries the body colour, the outline edge is black
        assert_eq!(buf.get_pixel(cx as u32, cy as u32), body);
        assert_eq!(buf.get_pixel(cx as u32 + radius as u32 - 1, cy as u32), BLACK);
    }
}

#[test]
fn disc_is_painted_on_the_raster() {
    let mut buf = PixelBuffer::from_pixel(9, 9, BLUE);
    buf.draw_disc(4, 4, 2, RED);
    assert_eq!(buf.get_pixel(4, 4), RED);
    assert_eq!(buf.get_pixel(4, 2), RED);
    assert_eq!(buf.get_pixel(0, 0), BLUE);
    assert_eq!(buf.pixels.len(), 81);
}

#[test]
fn fog_wash_blends_by_half_height() {
    let sky = Color { r: 200, g: 100, b: 0 };
    let fog = Color { r: 0, g: 100, b: 200 };
    let mut buf = PixelBuffer::from_pixel(3, 4, sky);
    buf.fog_wash(fog);
    assert_eq!(buf.get_pixel(0, 0), fog);
    assert_eq!(buf.get_pixel(2, 2), interpolate(fog, sky, 2, 8));
    assert_eq!(buf.get_pixel(1, 2), Color { r: 50, g: 100, b: 150 });
    assert_eq!(buf.get_pixel(1, 3), interpolate(fog, sky, 3, 8));
}

#[test]
fn layer_bands_grow_towards_the_front() {
    assert_eq!(layer_band(3000, 4, 0), Band { min: 1000, max: 2500 });
    assert_eq!(layer_band(3000, 4, 3), Band { min: 2125, max: 2500 });
    assert_eq!(layer_band(10, 6, 0), Band { min: 8, max: 8 });
    assert_eq!(layer_band(1, 5, 2), Band { min: 0, max: 0 });
}

#[test]
fn nearest_layer_takes_mountain_colour() {
    let base = Color { r: 10, g: 20, b: 30 };
    let sky = Color { r: 210, g: 220, b: 240 };
    assert_eq!(layer_color(base, sky, 5, 4), base);
    assert_eq!(layer_color(base, sky, 4, 0), Color { r: 160, g: 170, b: 188 });
    assert_eq!(layer_color(base, sky, 4, 1), interpolate(sky, base, 2, 4));
    assert_eq!(layer_color(base, sky, 4, 1), Color { r: 110, g: 120, b: 135 });
}

#[test]
fn planned_scene_respects_ranges() {
    for seed in 0..30u64 {
        let mut rng = RandomSource::from_seed(seed);
        assert!(in_sky_family(sky_color(&mut rng)));
        let res = Resolution { width: 40, height: 30 };
        let s = plan_scene(res, &mut rng);
        assert!(in_sky_family(s.palette.sky));
        for c in [s.palette.fog, s.palette.mountain] {
            assert!(c.r >= 1 && c.g >= 1 && c.b >= 1 && c.r < 255 && c.g < 255 && c.b < 255);
        }
        let count = s.layers.len() as u32;
        assert!((4..7).contains(&count));
        for (k, layer) in s.layers.iter().enumerate() {
            let band = layer_band(30, count, k as u32);
            assert_eq!(layer.points.len(), 40);
            assert!(layer.points.iter().all(|&h| band.min <= h && h <= band.max));
        }
        if let Some(d) = s.disc {
            assert!((4..36).contains(&d.x) && (3..10).contains(&d.y) && (5..10).contains(&d.radius));
        }
    }
}

#[test]
fn render_layers_nearest_last() {
    let sky = Color { r: 100, g: 100, b: 100 };
    let fog = Color { r: 0, g: 0, b: 200 };
    let mountain = Color { r: 200, g: 0, b: 0 };
    let res = Resolution { width: 2, height: 20 };
    let s = Scene {
        palette: Palette { sky, fog, mountain },
        disc: None,
        body: sky,
        layers: vec![Mountain { points: vec![3, 12] }, Mountain { points: vec![9, 15] }],
    };
    let buf = render(res, &s);
    let far = interpolate(sky, mountain, 1, 2);
    let near = interpolate(sky, mountain, 2, 2);
    assert_eq!(near, mountain);
    // above every ridge: the fogged sky
    assert_eq!(buf.get_pixel(0, 2), interpolate(fog, sky, 2, 40));
    assert_eq!(buf.get_pixel(1, 11), interpolate(fog, sky, 11, 40));
    // the far layer shows where the near one does not reach
    assert_eq!(buf.get_pixel(0, 3), far);
    assert_eq!(buf.get_pixel(0, 4), BLACK);
    assert_eq!(buf.get_pixel(0, 8), interpolate(far, fog, 8, 20));
    // the near layer covers the far one below its ridge
    assert_eq!(buf.get_pixel(0, 9), near);
    assert_eq!(buf.get_pixel(0, 10), BLACK);
    assert_eq!(buf.get_pixel(0, 14), interpolate(near, fog, 14, 20));
    assert_eq!(buf.get_pixel(1, 14), BLACK);
    assert_eq!(buf.get_pixel(1, 19), BLACK);
}

#[test]
fn compose_paints_the_planned_scene() {
    let res = Resolution { width: 30, height: 24 };
    let mut a = RandomSource::from_seed(99);
    let mut b = RandomSource::from_seed(99);
    let composed = compose(res, &mut a);
    let planned = render(res, &plan_scene(res, &mut b));
    assert_eq!(composed.pixels, planned.pixels);
}

#[test]
fn disc_placement_respects_ranges() {
    let mut rng = RandomSource::from_seed(3);
    assert_eq!(place_disc(Resolution { width: 1, height: 1 }, &mut rng), None);
    for _ in 0..50 {
        let d = place_disc(Resolution { width: 400, height: 300 }, &mut rng).unwrap();
        assert!((40..360).contains(&d.x));
        assert!((30..100).contains(&d.y));
        assert!((50..100).contains(&d.radius));
    }
}

#[test]
fn rgb_bytes_round_trip() {
    let mut buf = PixelBuffer::from_pixel(2, 1, RED);
    buf.put_pixel(1, 0, Color { r: 1, g: 2, b: 3 });
    let bytes = buf.to_rgb_bytes();
    assert_eq!(bytes, vec![255, 0, 0, 1, 2, 3]);
    let back = PixelBuffer::from_rgb_bytes(2, 1, &bytes).unwrap();
    assert_eq!(back.pixels, buf.pixels);
    assert!(PixelBuffer::from_rgb_bytes(2, 2, &bytes).is_none());
    assert!(PixelBuffer::from_rgb_bytes(1, 1, &vec![1, 2]).is_none());
}

#[test]
fn seeded_sources_repeat() {
    let mut a = RandomSource::from_seed(11);
    let mut b = RandomSource::from_seed(11);
    for _ in 0..20 {
        let x = a.range_i64(-5, 5);
        assert_eq!(x, b.range_i64(-5, 5));
        assert!((-5..5).contains(&x));
    }
}

#[test]
fn composed_buffer_has_requested_size() {
    for (w, h) in [(1u32, 1u32), (10, 10), (0, 3), (37, 5)] {
        let mut rng = RandomSource::from_seed(w as u64 * 31 + h as u64);
        let buf = compose(Resolution { width: w, height: h }, &mut rng);
        assert_eq!((buf.width, buf.height), (w, h));
        assert_eq!(buf.pixels.len(), (w * h) as usize);
    }
}

#[test]
fn composed_default_size() {
    let mut rng = RandomSource::from_seed(5);
    let buf = compose(Resolution { width: 4000, height: 3000 }, &mut rng);
    assert_eq!((buf.width, buf.height), (4000, 3000));
    assert_eq!(buf.pixels.len(), 12_000_000);
}

#[test]
fn new_draws_in_documented_order() {
    let band = Band { min: 20, max: 60 };
    let made = Mountain::new(band, 50, &mut RandomSource::from_seed(77));
    let mut rng = RandomSource::from_seed(77);
    let step_max = rng.range_i64(900, 1100);
    let step_change = rng.range_i64(150, 350);
    let height = rng.range_i64(0, 60_000);
    let slope = rng.range_i64(0, step_max) * 2 - step_max;
    let draws: Vec<i64> = (0..50).map(|_| rng.range_i64(0, step_change)).collect();
    let replayed = Mountain::from_walk(band, WalkParams { step_max, step_change, height, slope }, &draws);
    assert_eq!(made.points, replayed.points);
}

#[test]
fn colour_channels_are_drawn_in_order() {
    let mut a = RandomSource::from_seed(8);
    let mut b = RandomSource::from_seed(8);
    let c = a.color_in((1, 255), (1, 255), (1, 255));
    let r = b.range_u32(1, 255) as u8;
    let g = b.range_u32(1, 255) as u8;
    let bl = b.range_u32(1, 255) as u8;
    assert_eq!(c, Color { r, g, b: bl });
}
