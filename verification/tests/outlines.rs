use terrain_collision::cache_key::outline_cache_key;
use terrain_collision::float::F32;
use terrain_collision::outline::build_collision_outline;
use terrain_collision::outline::can_build;
use terrain_collision::outline::CollisionOutline;
use terrain_collision::outline::Rotation;
use terrain_collision::sat::sat_aabb_vs_outline;
use terrain_collision::sat::sat_outline_vs_outline;
use terrain_collision::vec2::Vec2;

fn f(x: f32) -> F32 {
    F32::from_bits(x.to_bits())
}

fn n(x: F32) -> f32 {
    f32::from_bits(x.to_bits())
}

fn image(w: i32, h: i32, pixel: fn(i32, i32) -> [u8; 4]) -> Vec<u8> {
    let mut bytes = Vec::new();
    for y in 0..h {
        for x in 0..w {
            bytes.extend_from_slice(&pixel(x, y));
        }
    }
    bytes
}

fn shape(w: i32, h: i32, solid: fn(i32, i32) -> bool) -> Vec<u8> {
    let mut bytes = image(w, h, |_, _| [0, 0, 0, 0]);
    for y in 0..h {
        for x in 0..w {
            bytes[((y * w + x) * 4 + 3) as usize] = if solid(x, y) { 255 } else { 0 };
        }
    }
    bytes
}

fn turned(angle: f32) -> Rotation {
    Rotation { angle: f(angle), sin: f(angle.sin()), cos: f(angle.cos()) }
}

/// The polygons relative to the centre.
fn local(outline: &CollisionOutline, size: (f32, f32)) -> Vec<Vec<(f32, f32)>> {
    let corner = Vec2::new(f(size.0 * -0.5), f(size.1 * -0.5));
    let hulls = outline.world_hulls(corner, turned(0.0));
    hulls.iter().map(|h| h.iter().map(|v| (n(v.x), n(v.y))).collect()).collect()
}

fn build(
    pixels: &[u8],
    w: u32,
    h: u32,
    size: (f32, f32),
    threshold: u8,
    epsilon: f32,
) -> Option<Vec<Vec<(f32, f32)>>> {
    assert!(can_build(pixels, w, h, threshold, f(epsilon)));
    build_collision_outline(pixels, w, h, (f(size.0), f(size.1)), threshold, f(epsilon))
        .map(|o| local(&o, size))
}

#[test]
fn a_diamond_is_one_polygon() {
    let pixels = shape(9, 9, |x, y| (x - 4).abs() + (y - 4).abs() <= 4);
    assert_eq!(
        build(&pixels, 9, 9, (9.0, 9.0), 0, 1.0),
        Some(vec![vec![(-4.0, 0.0), (0.0, -4.0), (4.0, 0.0), (0.0, 4.0)]])
    );
}

#[test]
fn a_square_is_one_polygon() {
    let pixels = image(8, 8, |_, _| [200, 100, 50, 255]);
    assert_eq!(
        build(&pixels, 8, 8, (8.0, 8.0), 128, 1.0),
        Some(vec![vec![(-3.5, -3.5), (3.5, -2.5), (2.5, 3.5), (-2.5, 3.5), (-3.5, 2.5)]])
    );
}

#[test]
fn an_angle_is_cut_into_pieces() {
    let pixels = image(12, 12, |x, y| [10, 20, 30, if x < 4 || y >= 8 { 255 } else { 0 }]);
    assert_eq!(
        build(&pixels, 12, 12, (24.0, 12.0), 128, 1.0),
        Some(vec![
            vec![(-9.0, 5.5), (9.0, 5.5), (11.0, 3.5), (-3.0, 2.5)],
            vec![(-3.0, 2.5), (-11.0, -5.5), (-9.0, 5.5)],
            vec![(-3.0, 2.5), (-5.0, -4.5), (-11.0, -5.5)],
            vec![(-5.0, -4.5), (-9.0, -5.5), (-11.0, 4.5), (-5.0, 5.5), (-11.0, -5.5)],
        ])
    );
}

#[test]
fn a_cup_is_cut_into_pieces() {
    let pixels = shape(16, 12, |x, y| x < 4 || x >= 12 || y >= 8);
    assert_eq!(
        build(&pixels, 16, 12, (16.0, 12.0), 128, 1.0),
        Some(vec![
            vec![(6.5, 5.5), (7.5, -4.5), (4.5, -4.5), (3.5, 2.5)],
            vec![(3.5, 2.5), (-6.5, 5.5), (6.5, 5.5)],
            vec![(3.5, 2.5), (-3.5, 2.5), (-6.5, 5.5)],
            vec![(-3.5, 2.5), (-7.5, -5.5), (-6.5, 5.5)],
            vec![(-3.5, 2.5), (-4.5, -4.5), (-7.5, -5.5)],
            vec![(-4.5, -4.5), (-6.5, -5.5), (-7.5, 4.5)],
            vec![(-7.5, 4.5), (-3.5, 5.5), (-7.5, -5.5), (-4.5, -4.5)],
        ])
    );
}

#[test]
fn the_background_of_a_disc_is_no_part_of_it() {
    let pixels = image(16, 16, |x, y| {
        if (x - 8) * (x - 8) + (y - 8) * (y - 8) <= 25 { [20, 20, 20, 255] } else { [250, 250, 250, 255] }
    });
    assert_eq!(
        build(&pixels, 16, 16, (16.0, 16.0), 10, 1.0),
        Some(vec![vec![
            (-4.5, 0.5), (-2.5, -3.5), (0.5, -4.5), (4.5, -2.5), (5.5, 0.5), (3.5, 4.5), (0.5, 5.5),
            (-3.5, 3.5),
        ]])
    );
}

#[test]
fn only_the_largest_part_has_an_outline() {
    let pixels = shape(12, 6, |x, y| (x < 3 && y < 3) || x >= 6);
    assert_eq!(
        build(&pixels, 12, 6, (12.0, 6.0), 0, 1.0),
        Some(vec![vec![
            (0.5, -2.5), (1.5, -2.5), (5.5, -1.5), (5.5, 1.5), (4.5, 2.5), (1.5, 2.5),
        ]])
    );
}

#[test]
fn a_short_contour_takes_the_hull() {
    let pixels = shape(3, 3, |x, y| x <= y);
    assert_eq!(
        build(&pixels, 3, 3, (3.0, 3.0), 0, 1.0),
        Some(vec![vec![(-1.0, -1.0), (1.0, 1.0), (-1.0, 1.0)]])
    );
}

#[test]
fn invisible_sprites_have_no_outline() {
    let pixels = image(8, 8, |_, _| [255, 255, 255, 128]);
    assert_eq!(build(&pixels, 8, 8, (8.0, 8.0), 128, 1.0), None);
    assert!(build(&pixels, 8, 8, (8.0, 8.0), 127, 1.0).is_some());
    assert_eq!(build(&[], 0, 0, (8.0, 8.0), 0, 1.0), None);
}

#[test]
fn sprites_that_are_too_small_have_no_outline() {
    assert_eq!(build(&image(1, 1, |_, _| [0, 0, 0, 255]), 1, 1, (1.0, 1.0), 0, 1.0), None);
    assert_eq!(build(&image(2, 2, |_, _| [0, 0, 0, 255]), 2, 2, (2.0, 2.0), 0, 1.0), None);
    let line = shape(10, 4, |_, y| y == 2);
    assert_eq!(build(&line, 10, 4, (10.0, 4.0), 0, 0.5), None);
    let plus = shape(5, 5, |x, y| (x - 2).abs() + (y - 2).abs() <= 1);
    assert_eq!(build(&plus, 5, 5, (5.0, 5.0), 0, 0.5), None);
}

#[test]
fn outlines_need_all_pixels() {
    let pixels = image(8, 8, |_, _| [200, 100, 50, 255]);
    assert!(can_build(&pixels, 8, 8, 0, f(1.0)));
    assert!(!can_build(&pixels[1..], 8, 8, 0, f(1.0)));
    assert!(!can_build(&pixels, 8, 9, 0, f(1.0)));
    assert!(!can_build(&pixels, 0xffff_ffff, 0xffff_ffff, 0, f(1.0)));
    assert!(can_build(&pixels, 0, 0xffff_ffff, 0, f(1.0)));
}

#[test]
fn a_negative_tolerance_may_rule_an_outline_out() {
    let square = image(8, 8, |_, _| [200, 100, 50, 255]);
    assert!(!can_build(&square, 8, 8, 0, f(-1.0)));
    assert!(can_build(&square, 8, 8, 255, f(-1.0)));
    let plus = shape(5, 5, |x, y| (x - 2).abs() + (y - 2).abs() <= 1);
    assert!(can_build(&plus, 5, 5, 0, f(-1.0)));
    assert_eq!(build(&plus, 5, 5, (5.0, 5.0), 0, -1.0), None);
}

#[test]
fn colours_of_a_sparse_sprite_do_not_matter() {
    let dark = shape(9, 9, |x, y| (x - 4).abs() + (y - 4).abs() <= 4);
    let mut bright = dark.clone();
    for i in 0..81 {
        bright[i * 4] = 255;
    }
    assert_eq!(
        build(&dark, 9, 9, (9.0, 9.0), 0, 1.0),
        build(&bright, 9, 9, (9.0, 9.0), 0, 1.0)
    );
}

#[test]
fn world_polygons_are_moved_to_the_centre() {
    let pixels = shape(9, 9, |x, y| (x - 4).abs() + (y - 4).abs() <= 4);
    let outline = build_collision_outline(&pixels, 9, 9, (f(9.0), f(9.0)), 0, f(1.0)).unwrap();
    let hulls = outline.world_hulls(Vec2::new(f(10.0), f(20.0)), turned(0.0));
    let plain: Vec<(f32, f32)> = hulls[0].iter().map(|v| (n(v.x), n(v.y))).collect();
    assert_eq!(plain, vec![(10.5, 24.5), (14.5, 20.5), (18.5, 24.5), (14.5, 28.5)]);
}

#[test]
fn world_polygons_are_turned() {
    let pixels = shape(9, 9, |x, y| (x - 4).abs() + (y - 4).abs() <= 4);
    let outline = build_collision_outline(&pixels, 9, 9, (f(9.0), f(9.0)), 0, f(1.0)).unwrap();
    let rotation = Rotation {
        angle: f(0.5),
        sin: F32::from_bits(0x3ef5_7744),
        cos: F32::from_bits(0x3f60_a940),
    };
    let hulls = outline.clone().world_hulls(Vec2::new(f(10.0), f(20.0)), rotation);
    let bits: Vec<(u32, u32)> = hulls[0].iter().map(|v| (v.x.to_bits(), v.y.to_bits())).collect();
    assert_eq!(
        bits,
        vec![
            (0x412f_d5b0, 0x41b4_a88c),
            (0x4183_5774, 0x41a7_ead8),
            (0x4190_1528, 0x41d3_5774),
            (0x4149_5118, 0x41e0_1528),
        ]
    );
}

#[test]
fn a_tiny_rotation_is_none() {
    let pixels = shape(9, 9, |x, y| (x - 4).abs() + (y - 4).abs() <= 4);
    let outline = build_collision_outline(&pixels, 9, 9, (f(9.0), f(9.0)), 0, f(1.0)).unwrap();
    let odd = |angle: f32| Rotation { angle: f(angle), sin: f(1.0), cos: f(0.0) };
    let corner = |r: Rotation| n(outline.world_hulls(Vec2::zero(), r)[0][0].x);
    assert_eq!(corner(odd(1.0e-6)), 0.5);
    assert_eq!(corner(odd(-1.0e-6)), 0.5);
    assert_eq!(corner(odd(2.0e-6)), 4.5);
    assert_eq!(corner(odd(-2.0e-6)), 4.5);
}

#[test]
fn keys_are_hashes_of_all_inputs() {
    assert_eq!(
        outline_cache_key(&[], 0, 0, (f(0.0), f(0.0)), 0, f(0.0)),
        0x98b2_b141_8e80_a50f
    );
    assert_eq!(
        outline_cache_key(&[1, 2, 3], 7, 9, (f(1.5), f(-2.0)), 128, f(4.0)),
        0x1002_b075_e1b7_3f58
    );
}

#[test]
fn keys_change_with_every_input() {
    let base = outline_cache_key(&[1, 2, 3], 7, 9, (f(1.5), f(-2.0)), 128, f(4.0));
    assert_ne!(base, outline_cache_key(&[1, 2, 4], 7, 9, (f(1.5), f(-2.0)), 128, f(4.0)));
    assert_ne!(base, outline_cache_key(&[1, 2, 3], 8, 9, (f(1.5), f(-2.0)), 128, f(4.0)));
    assert_ne!(base, outline_cache_key(&[1, 2, 3], 7, 8, (f(1.5), f(-2.0)), 128, f(4.0)));
    assert_ne!(base, outline_cache_key(&[1, 2, 3], 7, 9, (f(1.6), f(-2.0)), 128, f(4.0)));
    assert_ne!(base, outline_cache_key(&[1, 2, 3], 7, 9, (f(1.5), f(2.0)), 128, f(4.0)));
    assert_ne!(base, outline_cache_key(&[1, 2, 3], 7, 9, (f(1.5), f(-2.0)), 127, f(4.0)));
    assert_ne!(base, outline_cache_key(&[1, 2, 3], 7, 9, (f(1.5), f(-2.0)), 128, f(4.5)));
}

#[test]
fn corners_are_in_the_middle_of_visible_pixels() {
    let shapes: [(i32, i32, fn(i32, i32) -> bool); 5] = [
        (9, 9, |x, y| (x - 4).abs() + (y - 4).abs() <= 4),
        (12, 12, |x, y| x < 4 || y >= 8),
        (16, 12, |x, y| x < 4 || x >= 12 || y >= 8),
        (3, 3, |x, y| x <= y),
        (20, 14, |x, y| (x * 3 + y * 5) % 17 > 3 && (x - 10).abs() + (y - 7).abs() < 9),
    ];
    for (w, h, solid) in shapes {
        let pixels = shape(w, h, solid);
        let size = (w as f32, h as f32);
        if let Some(hulls) = build(&pixels, w as u32, h as u32, size, 0, 1.0) {
            for hull in &hulls {
                assert!(hull.len() >= 3);
                for &(x, y) in hull {
                    let (px, py) = (x + size.0 * 0.5 - 0.5, y + size.1 * 0.5 - 0.5);
                    assert_eq!((px.fract(), py.fract()), (0.0, 0.0));
                    assert!(solid(px as i32, py as i32));
                }
            }
        }
    }
}

/// Numbers that look random, and are the same in every run.
struct Numbers {
    state: u64,
}

impl Numbers {
    fn below(&mut self, n: u64) -> i64 {
        self.state = self.state.wrapping_mul(6364136223846793005).wrapping_add(1442695040888963407);
        ((self.state >> 33) % n) as i64
    }
}

struct Picture {
    pixels: Vec<u8>,
    w: u32,
    h: u32,
    size: (f32, f32),
    epsilon: f32,
}

fn fill(pixels: &mut [u8], i: i64, colour: [u8; 4]) {
    let at = i as usize * 4;
    pixels[at..at + 4].copy_from_slice(&colour);
}

/// A picture of boxes and ellipses, on a background or on nothing.
fn some_picture(seed: u64) -> Picture {
    let mut g = Numbers { state: seed };
    let w = 4 + g.below(24);
    let h = 4 + g.below(24);
    let filled = g.below(3) == 0;
    let mut pixels = vec![0u8; (w * h * 4) as usize];
    if filled {
        for i in 0..w * h {
            fill(&mut pixels, i, [240, 240, 240, 255]);
        }
    }
    for _ in 0..1 + g.below(5) {
        let (x, y) = (g.below(w as u64), g.below(h as u64));
        let (a, b) = (1 + g.below(w as u64), 1 + g.below(h as u64));
        let round = g.below(2) == 1;
        for py in 0..h {
            for px in 0..w {
                let (dx, dy) = (px - x, py - y);
                let inside = if round {
                    dx * dx * b * b + dy * dy * a * a <= a * a * b * b / 4
                } else {
                    0 <= dx && dx < a && 0 <= dy && dy < b
                };
                if inside {
                    let green = g.below(40) as u8;
                    let alpha = 255 - g.below(60) as u8;
                    fill(&mut pixels, py * w + px, [30, green, 20, alpha]);
                }
            }
        }
    }
    let size = ((8 + g.below(100)) as f32 * 0.5, (8 + g.below(100)) as f32 * 0.5);
    let epsilon = [0.0, 0.5, 1.0, 2.0, 4.0][g.below(5) as usize];
    Picture { pixels, w: w as u32, h: h as u32, size, epsilon }
}

fn hash(bytes: &[u8]) -> u64 {
    let mut h: u64 = 0xcbf2_9ce4_8422_2325;
    for b in bytes {
        h = (h ^ *b as u64).wrapping_mul(0x0000_0100_0000_01b3);
    }
    h
}

fn build_picture(p: &Picture) -> Option<CollisionOutline> {
    assert!(can_build(&p.pixels, p.w, p.h, 100, f(p.epsilon)));
    build_collision_outline(&p.pixels, p.w, p.h, (f(p.size.0), f(p.size.1)), 100, f(p.epsilon))
}

/// A hash of the polygons of an outline, relative to the centre.
fn digest(outline: &Option<CollisionOutline>, size: (f32, f32)) -> u64 {
    let mut words: Vec<u32> = Vec::new();
    match outline {
        None => words.push(0),
        Some(o) => {
            let corner = Vec2::new(f(size.0 * -0.5), f(size.1 * -0.5));
            let hulls = o.world_hulls(corner, turned(0.0));
            words.push(hulls.len() as u32);
            for hull in &hulls {
                words.push(hull.len() as u32);
                for v in hull {
                    words.push(v.x.to_bits());
                    words.push(v.y.to_bits());
                }
            }
        }
    }
    let bytes: Vec<u8> = words.iter().flat_map(|w| w.to_le_bytes()).collect();
    hash(&bytes)
}

fn fold(words: &[u64]) -> u64 {
    let bytes: Vec<u8> = words.iter().flat_map(|w| w.to_le_bytes()).collect();
    hash(&bytes)
}

#[test]
fn many_pictures_have_their_outlines() {
    let digests: Vec<u64> = (1..=400)
        .map(|seed| {
            let p = some_picture(seed);
            digest(&build_picture(&p), p.size)
        })
        .collect();
    assert_eq!(
        digests[..4],
        [0x4873_b121_7bee_61e6, 0x2bce_618b_236b_634b, 0x780c_0a18_e7f9_b391, 0x1b37_5894_2122_396d]
    );
    assert_eq!(fold(&digests), 0x0e19_b724_117f_44e4);
}

#[test]
fn many_outlines_push_each_other() {
    let mut outlines: Vec<(CollisionOutline, (f32, f32))> = Vec::new();
    for seed in 1..=400 {
        let p = some_picture(seed);
        if let Some(o) = build_picture(&p) {
            outlines.push((o, p.size));
        }
    }
    let rotations = [
        Rotation { angle: f(0.0), sin: f(0.0), cos: f(1.0) },
        Rotation { angle: f(1.5707964), sin: f(1.0), cos: f(0.0) },
        Rotation { angle: f(0.6435011), sin: f(0.6), cos: f(0.8) },
    ];
    let mut g = Numbers { state: 99 };
    let mut words: Vec<u64> = Vec::new();
    for pair in outlines.windows(2) {
        let (a, size) = &pair[0];
        let b = &pair[1].0;
        let x = g.below(80) as f32 * 0.25 - 10.0;
        let y = g.below(80) as f32 * 0.25 - 10.0;
        let rotation = rotations[g.below(3) as usize];
        let position = Vec2::new(f(x), f(y));
        match sat_outline_vs_outline(a, position, turned(0.0), b, Vec2::zero(), rotation) {
            Some(push) => {
                words.push(push.x.to_bits() as u64);
                words.push(push.y.to_bits() as u64);
            }
            None => words.push(1),
        }
        match sat_aabb_vs_outline(position, (f(size.0), f(size.1)), Vec2::zero(), b, rotation) {
            Some(r) => {
                words.push(r.normal.x.to_bits() as u64);
                words.push(r.normal.y.to_bits() as u64);
                words.push(r.depth.to_bits() as u64);
            }
            None => words.push(2),
        }
    }
    assert_eq!(fold(&words), 0xd8f7_a66f_34c9_d46d);
}
