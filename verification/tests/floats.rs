use terrain_collision::float::F32;
use terrain_collision::vec2::Vec2;

fn edges() -> Vec<u32> {
    vec![
        0x0000_0000, 0x8000_0000, 0x0000_0001, 0x8000_0001, 0x007f_ffff, 0x0080_0000, 0x0080_0001,
        0x00ff_ffff, 0x0100_0000, 0x3f80_0000, 0xbf80_0000, 0x3f80_0001, 0x3f7f_ffff, 0x4000_0000,
        0x3f00_0000, 0x4b00_0000, 0x4b80_0000, 0x4b80_0001, 0x3400_0000, 0x3380_0000, 0x7f7f_ffff,
        0xff7f_ffff, 0x7f00_0000, 0x7e80_0000, 0x7f80_0000, 0xff80_0000, 0x7fc0_0000, 0xffc1_2345,
        0x4049_0fdb, 0x3eaa_aaab, 0x2b8c_bccc, 0x1e3c_e508, 0x5f00_0000,
    ]
}

fn patterns(count: usize) -> Vec<u32> {
    let mut state: u64 = 0x1234_5678_9abc_def1;
    let mut all = edges();
    while all.len() < count {
        state = state.wrapping_mul(6364136223846793005).wrapping_add(1442695040888963407);
        all.push((state >> 32) as u32);
        // a number near one, so that sums and differences interact
        all.push(0x3f00_0000 + ((state >> 20) as u32 & 0x01ff_ffff));
    }
    all
}

fn same(r: F32, expected: f32) -> bool {
    if expected.is_nan() {
        r.to_bits() == 0x7fc0_0000
    } else {
        r.to_bits() == expected.to_bits()
    }
}

fn pairs(count: usize, test: fn(F32, F32, f32, f32) -> bool) {
    let all = patterns(count);
    for &a in &all {
        for &b in &all {
            let ok = test(F32::from_bits(a), F32::from_bits(b), f32::from_bits(a), f32::from_bits(b));
            assert!(ok, "{:#010x} {:#010x}", a, b);
        }
    }
}

#[test]
fn sums_are_those_of_the_machine() {
    pairs(400, |a, b, x, y| same(a.add(b), x + y));
}

#[test]
fn differences_are_those_of_the_machine() {
    pairs(400, |a, b, x, y| same(a.sub(b), x - y));
}

#[test]
fn products_are_those_of_the_machine() {
    pairs(400, |a, b, x, y| same(a.mul(b), x * y));
}

#[test]
fn quotients_are_those_of_the_machine() {
    pairs(400, |a, b, x, y| same(a.div(b), x / y));
}

#[test]
fn comparisons_are_those_of_the_machine() {
    pairs(400, |a, b, x, y| a.lt(b) == (x < y) && a.le(b) == (x <= y));
}

#[test]
fn minima_are_those_of_the_machine() {
    pairs(200, |a, b, x, y| {
        if x.is_nan() && y.is_nan() {
            a.min(b).is_nan()
        } else if x == y {
            // which zero is returned is open
            f32::from_bits(a.min(b).to_bits()) == x
        } else {
            a.min(b).to_bits() == x.min(y).to_bits()
        }
    });
}

#[test]
fn roots_are_those_of_the_machine() {
    for bits in patterns(4000) {
        assert!(same(F32::from_bits(bits).sqrt(), f32::from_bits(bits).sqrt()), "{:#010x}", bits);
    }
}

#[test]
fn signs_are_those_of_the_machine() {
    for bits in patterns(400) {
        let x = f32::from_bits(bits);
        assert_eq!(F32::from_bits(bits).neg().to_bits(), (-x).to_bits());
        assert_eq!(F32::from_bits(bits).abs().to_bits(), x.abs().to_bits());
        assert_eq!(F32::from_bits(bits).is_nan(), x.is_nan());
    }
}

#[test]
fn integers_are_rounded_like_casts() {
    for n in [
        0u64, 1, 2, 255, 16_777_215, 16_777_216, 16_777_217, 16_777_219, 33_554_434, 33_554_435,
        4_294_967_295, 4_294_967_296, 0x7fff_ffff_ffff_ffff, 0xffff_ffff_ffff_ffff,
        0xffff_ff7f_ffff_ffff, 0xffff_ff80_0000_0000,
    ] {
        assert_eq!(F32::from_u64(n).to_bits(), (n as f32).to_bits(), "{}", n);
    }
    for n in [0i64, 1, -1, 7, -16_777_217, 16_777_219, -2_147_483_648, 2_147_483_647, 281_474_976_710_656] {
        assert_eq!(F32::from_i64(n).to_bits(), (n as f32).to_bits(), "{}", n);
    }
}

#[test]
fn sum_and_product_commute() {
    pairs(120, |a, b, _, _| {
        a.add(b).to_bits() == b.add(a).to_bits() && a.mul(b).to_bits() == b.mul(a).to_bits()
    });
}

#[test]
fn negating_addends_negates_a_sum() {
    pairs(120, |a, b, _, _| {
        let sum = a.add(b);
        sum.is_nan() || sum.to_bits() % 0x8000_0000 == 0
            || a.neg().add(b.neg()).to_bits() == sum.neg().to_bits()
    });
}

#[test]
fn minus_one_negates_and_zero_keeps() {
    for bits in patterns(400) {
        let x = F32::from_bits(bits);
        if !x.is_nan() {
            assert_eq!(x.mul(F32::from_bits(0xbf80_0000)).to_bits(), x.neg().to_bits());
            assert_eq!(x.sub(F32::zero()).to_bits(), bits);
        }
    }
}

fn v(x: f32, y: f32) -> Vec2 {
    Vec2::new(F32::from_bits(x.to_bits()), F32::from_bits(y.to_bits()))
}

fn t(v: Vec2) -> (f32, f32) {
    (f32::from_bits(v.x.to_bits()), f32::from_bits(v.y.to_bits()))
}

fn n(x: F32) -> f32 {
    f32::from_bits(x.to_bits())
}

#[test]
fn vectors_have_their_formulas() {
    let (a, b) = (v(3.0, 4.0), v(-1.5, 2.0));
    assert_eq!(n(a.dot(b)), 3.5);
    assert_eq!(t(a.perp()), (-4.0, 3.0));
    assert_eq!(n(a.length_sq()), 25.0);
    assert_eq!(n(a.length()), 5.0);
    assert_eq!(t(a.normalize()), (0.6, 0.8));
    assert_eq!(t(a.add(b)), (1.5, 6.0));
    assert_eq!(t(a.sub(b)), (4.5, 2.0));
    assert_eq!(t(a.scale(F32::from_bits(0x3f00_0000))), (1.5, 2.0));
    assert_eq!(t(Vec2::zero()), (0.0, 0.0));
    assert_eq!(t(Vec2::from_tuple((a.x, b.y))), (3.0, 2.0));
}

#[test]
fn no_direction_points_up() {
    assert_eq!(t(v(0.0, 0.0).normalize()), (0.0, -1.0));
    assert_eq!(t(v(1.0e-9, 0.0).normalize()), (0.0, -1.0));
    assert_eq!(t(v(0.0, 2.0e-8).normalize()).0, 0.0);
}

#[test]
fn a_quarter_turn_rotates() {
    let quarter = v(2.0, 1.0).rotate(F32::from_bits(0x3f80_0000), F32::zero());
    assert_eq!(t(quarter), (-1.0, 2.0));
}
