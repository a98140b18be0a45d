//! Laws on the momentum of an object that hits a wall or a floor: without
//! restitution it loses what goes against the push, and with all of it what went
//! against the push comes back.

use crate::float;
use crate::float::F32;
use crate::float_laws;
use crate::model;
use crate::nearest_laws;
use crate::push_laws;
use crate::rounding;
use crate::simplify::ONE;
use crate::vec2::Vec2;
use crate::vec2::MINUS_ONE;
use vstd::arithmetic::power2::*;
use vstd::prelude::*;

verus! {

/// 2.0
const TWO: u32 = 0x4000_0000;

/// The square of a significand, rounded to 24 bits of which the lowest counts
/// `unit`.
proof fn lemma_rounded_square(g: nat, unit: nat)
    requires
        0x80_0000 <= g < 0x100_0000,
        unit == if g * g < 0x8000_0000_0000 {
            0x80_0000nat
        } else {
            0x100_0000nat
        },
    ensures
        ({
            let s = rounding::nearest(g * g, unit);
            &&& 0x80_0000 <= s <= 0x100_0000
            &&& s * unit < 0x1_0000_0000_0000
            &&& (2 * g - 1) * (2 * g - 1) <= 4 * (s * unit) < (2 * g + 1) * (2 * g + 1)
        }),
        0x80_0000 * unit <= g * g < 0x100_0000 * unit,
{
    let q = g * g;
    assert(0x4000_0000_0000 <= q <= 0xffff_ff00_0000) by (nonlinear_arith)
        requires
            q == g * g,
            0x80_0000 <= g < 0x100_0000,
    ;
    assert(q <= 0xff_ffff * 0xff_ffff) by (nonlinear_arith)
        requires
            q == g * g,
            g <= 0xff_ffff,
    ;
    let s = rounding::nearest(q, unit);
    let below = q / unit;
    let rest = q % unit;
    vstd::arithmetic::div_mod::lemma_fundamental_div_mod(q as int, unit as int);
    assert(q == below * unit + rest) by (nonlinear_arith)
        requires
            q == unit * below + rest,
    ;
    assert((below + 1) * unit == below * unit + unit) by (nonlinear_arith);
    assert(0x80_0000 <= below < 0x100_0000) by (nonlinear_arith)
        requires
            q == below * unit + rest,
            rest < unit,
            0x80_0000 * unit <= q < 0x100_0000 * unit,
            unit > 0,
    ;
    assert((2 * g - 1) * (2 * g - 1) == 4 * q - 4 * g + 1) by (nonlinear_arith)
        requires
            q == g * g,
    ;
    assert((2 * g + 1) * (2 * g + 1) == 4 * q + 4 * g + 1) by (nonlinear_arith)
        requires
            q == g * g,
    ;
    if unit == 0x100_0000 {
        assert(g > 0xb0_0000) by (nonlinear_arith)
            requires
                q == g * g,
                q >= 0x8000_0000_0000,
        ;
    }
}

/// The root of the square of a number that is neither very large nor very small is
/// that number, without its sign.
pub proof fn law_root_of_square_is_number(d: F32)
    requires
        0x2080_0000 <= d.mag() < 0x5e80_0000,
    ensures
        d.spec_mul(d).finite(),
        d.spec_mul(d).mag() != 0,
        !d.spec_mul(d).negative(),
        d.spec_mul(d).spec_sqrt() == d.spec_abs(),
{
    reveal(F32::spec_mul);
    reveal(F32::spec_sqrt);
    let e = float::exponent(d.mag());
    let g = float::significand(d.mag());
    let t = pow2(e);
    let u = pow2(2 * e);
    let m = float::magnitude(d.mag());
    let den = pow2(149);
    let unit: nat = if g * g < 0x8000_0000_0000 {
        0x80_0000
    } else {
        0x100_0000
    };
    let c: nat = if g * g < 0x8000_0000_0000 {
        23
    } else {
        24
    };
    let k = (2 * e + c - 149) as nat;
    let s = rounding::nearest(g * g, unit);
    let a = s * unit;
    assert(64 <= e <= 188);
    assert(d.mag() == e * 0x80_0000 + g);
    lemma2_to64();
    lemma_rounded_square(g, unit);
    lemma_pow2_pos(e);
    lemma_pow2_pos(2 * e);
    lemma_pow2_pos(149);
    lemma_pow2_pos(k);
    lemma_pow2_adds(e, e);
    lemma_pow2_adds(149, k);
    lemma_pow2_adds(c, 2 * e);
    assert(pow2(c) == unit);
    assert(den * pow2(k) == unit * u);
    let num = m * m;
    assert(num == (g * g) * u) by (nonlinear_arith)
        requires
            num == m * m,
            m == g * t,
            u == t * t,
    ;
    lemma_pow2_adds(24, k);
    lemma_pow2_adds(23, k);
    let w = den * pow2(k);
    assert(den * pow2(24 + k) == 0x100_0000 * w && den * pow2((23 + k) as nat) == 0x80_0000 * w)
        by (nonlinear_arith)
        requires
            pow2(24 + k) == 0x100_0000 * pow2(k),
            pow2((23 + k) as nat) == 0x80_0000 * pow2(k),
            w == den * pow2(k),
    ;
    assert(0x80_0000 * w <= num < 0x100_0000 * w) by (nonlinear_arith)
        requires
            w == unit * u,
            num == (g * g) * u,
            0x80_0000 * unit <= g * g < 0x100_0000 * unit,
            u > 0,
    ;
    rounding::lemma_quantum(num, den, k);
    rounding::lemma_nearest_scale(g * g, unit, u);
    assert(rounding::nearest(num, den * pow2(k)) == s);
    nearest_laws::lemma_bits_of_multiple(k, s);
    let bits = k * 0x80_0000 + s;
    assert(bits < 0x7f80_0000);
    float_laws::lemma_assemble(false, bits);
    let q = d.spec_mul(d);
    assert(q.mag() == bits && !q.negative());
    let n = float::magnitude(bits) * den;
    assert(n == a * u) by (nonlinear_arith)
        requires
            n == (s * pow2(k)) * den,
            den * pow2(k) == unit * u,
            a == s * unit,
    ;
    lemma_root_is(n, a, e, g);
    float_laws::lemma_assemble(false, d.mag());
}

/// The root of a number that is near to a square.
proof fn lemma_root_is(n: nat, a: nat, e: nat, g: nat)
    requires
        n == a * pow2(2 * e),
        0x80_0000 <= g < 0x100_0000,
        0x4000_0000_0000 <= a < 0x1_0000_0000_0000,
        (2 * g - 1) * (2 * g - 1) <= 4 * a < (2 * g + 1) * (2 * g + 1),
    ensures
        rounding::round_root_bits(n) == e * 0x80_0000 + g,
{
    let u = pow2(2 * e);
    let t = pow2(e);
    lemma2_to64();
    lemma2_to64_rest();
    lemma_pow2_pos(2 * e);
    lemma_pow2_adds(e, e);
    lemma_pow2_adds(48, 2 * e);
    lemma_pow2_adds(46, 2 * e);
    assert(n < pow2(48 + 2 * e)) by (nonlinear_arith)
        requires
            n == a * u,
            a < 0x1_0000_0000_0000,
            pow2(48 + 2 * e) == 0x1_0000_0000_0000 * u,
            u > 0,
    ;
    assert(n >= pow2((46 + 2 * e) as nat)) by (nonlinear_arith)
        requires
            n == a * u,
            a >= 0x4000_0000_0000,
            pow2((46 + 2 * e) as nat) == 0x4000_0000_0000 * u,
            u > 0,
    ;
    rounding::lemma_root_quantum(n, e);
    let lo = (2 * g - 1) * (2 * g - 1);
    let hi = (2 * g + 1) * (2 * g + 1);
    assert(lo * (t * t) <= 4 * n && 4 * n < hi * (t * t)) by (nonlinear_arith)
        requires
            n == a * u,
            u == t * t,
            lo <= 4 * a,
            4 * a < hi,
            u > 0,
    ;
    assert(rounding::nearest_root(g, n, t));
    let s = choose|s: nat| rounding::nearest_root(s, n, t);
    assert(rounding::nearest_root(s, n, t));
    rounding::lemma_nearest_root_unique(g, s, n, t);
}

/// The magnitude of one.
proof fn lemma_one()
    ensures
        float::magnitude(ONE as nat) == pow2(149),
        float::magnitude(TWO as nat) == 2 * pow2(149),
{
    lemma2_to64();
    lemma_pow2_adds(23, 126);
    lemma_pow2_unfold(127);
    assert(float::significand(ONE as nat) == 0x80_0000 && float::exponent(ONE as nat) == 126);
    assert(float::significand(TWO as nat) == 0x80_0000 && float::exponent(TWO as nat) == 127);
}

/// A number other than zero, and zero, is that number.
proof fn lemma_plus_zero(x: F32, z: F32)
    requires
        x.finite(),
        x.mag() != 0,
        z.mag() == 0,
    ensures
        x.spec_add(z) == x,
        z.spec_add(x) == x,
{
    reveal(F32::spec_add);
    float_laws::law_sum_commutes(x, z);
    float_laws::law_zero_is_zero(z);
    float_laws::law_zero_is_zero(F32 { bits: 0 });
    float::lemma_magnitude_monotone(0, x.mag());
    float_laws::lemma_round_exact(x.mag(), 1);
    float_laws::lemma_parts(x);
}

/// The product with zero is zero.
proof fn lemma_times_zero(x: F32, z: F32)
    requires
        x.finite(),
        z.mag() == 0,
    ensures
        x.spec_mul(z).mag() == 0,
        z.spec_mul(x).mag() == 0,
{
    reveal(F32::spec_mul);
    float_laws::law_product_commutes(x, z);
    lemma_pow2_pos(149);
    float_laws::law_zero_is_zero(F32 { bits: 0 });
    float_laws::lemma_round_exact(0, pow2(149));
    let m = float::magnitude(x.mag());
    assert(m * 0 == 0 && 0 * pow2(149) == 0) by (nonlinear_arith);
    float_laws::lemma_assemble(x.negative() != z.negative(), 0);
}

/// The product with one, of either sign, is the number, with or without its sign
/// turned.
proof fn lemma_times_unit(x: F32, unit: F32)
    requires
        x.finite(),
        unit.mag() == ONE,
    ensures
        unit.negative() ==> x.spec_mul(unit) == x.spec_neg(),
        !unit.negative() ==> x.spec_mul(unit) == x,
{
    let one = F32 { bits: ONE };
    let minus = F32 { bits: MINUS_ONE };
    float_laws::law_times_minus_one(x);
    float_laws::lemma_parts(unit);
    float_laws::lemma_parts(x);
    float_laws::lemma_assemble(!x.negative(), x.mag());
    float_laws::law_negated_product(x, minus);
    float_laws::law_negation_turns_sign(x);
    assert(minus.spec_neg() == one);
}

/// Twice a number has the next exponent.
proof fn lemma_double(x: F32)
    requires
        0x80_0000 <= x.mag() < 0x7f00_0000,
    ensures
        x.spec_mul(F32 { bits: TWO }) == float::assemble(x.negative(), x.mag() + 0x80_0000),
        float::magnitude(x.mag() + 0x80_0000) == 2 * float::magnitude(x.mag()),
{
    reveal(F32::spec_mul);
    let e = float::exponent(x.mag());
    let g = float::significand(x.mag());
    let m = float::magnitude(x.mag());
    let more = x.mag() + 0x80_0000;
    lemma_one();
    lemma_pow2_pos(149);
    lemma_pow2_unfold(e + 1);
    assert(float::exponent(more) == e + 1 && float::significand(more) == g);
    assert(g * pow2(e + 1) == 2 * (g * pow2(e))) by (nonlinear_arith)
        requires
            pow2(e + 1) == 2 * pow2(e),
    ;
    assert(m * (2 * pow2(149)) == (2 * m) * pow2(149)) by (nonlinear_arith);
    float_laws::lemma_round_exact(more, pow2(149));
}

/// A number less its double is the number with its sign turned.
proof fn lemma_less_double(x: F32)
    requires
        0x80_0000 <= x.mag() < 0x7f00_0000,
    ensures
        x.spec_sub(float::assemble(x.negative(), x.mag() + 0x80_0000)) == x.spec_neg(),
{
    reveal(F32::spec_add);
    let twice = float::assemble(x.negative(), x.mag() + 0x80_0000);
    lemma_double(x);
    float_laws::lemma_assemble(x.negative(), x.mag() + 0x80_0000);
    float_laws::lemma_assemble(!x.negative(), x.mag() + 0x80_0000);
    float_laws::law_zero_is_zero(F32 { bits: 0 });
    float::lemma_magnitude_monotone(0, x.mag());
    float_laws::lemma_round_exact(x.mag(), 1);
    float_laws::law_negation_turns_sign(twice);
}

/// A number less itself is zero.
proof fn lemma_less_itself(x: F32)
    requires
        x.finite(),
    ensures
        x.spec_sub(x).bits == 0,
{
    reveal(F32::spec_add);
    float_laws::lemma_assemble(!x.negative(), x.mag());
    float_laws::law_negation_turns_sign(x);
}

/// One and one is two; one and zero is one.
proof fn lemma_one_and_more()
    ensures
        (F32 { bits: ONE }).spec_add(F32 { bits: ONE }).bits == TWO,
        (F32 { bits: ONE }).spec_add(F32 { bits: 0 }).bits == ONE,
{
    let one = F32 { bits: ONE };
    lemma_plus_zero(one, F32 { bits: 0 });
    reveal(F32::spec_add);
    lemma_one();
    lemma_pow2_pos(149);
    float_laws::lemma_round_exact(TWO as nat, 1);
}

/// The direction of a horizontal push is one to its side.
proof fn lemma_direction(d: F32)
    requires
        0x2080_0000 <= d.mag() < 0x5e80_0000,
    ensures
        ({
            let push = Vec2 { x: d, y: F32 { bits: 0 } };
            let x = d.spec_div(push.spec_length());
            let y = (F32 { bits: 0 }).spec_div(push.spec_length());
            x.mag() == ONE && x.negative() == d.negative() && y.bits == 0
        }),
{
    let zero = F32 { bits: 0 };
    let push = Vec2 { x: d, y: zero };
    let m = float::magnitude(d.mag());
    law_root_of_square_is_number(d);
    float_laws::law_zero_sums(zero);
    lemma_plus_zero(d.spec_mul(d), zero);
    assert(push.spec_length() == d.spec_abs());
    float_laws::lemma_assemble(false, d.mag());
    float_laws::law_zero_is_zero(zero);
    float::lemma_magnitude_monotone(0, d.mag());
    lemma_one();
    float_laws::lemma_round_exact(ONE as nat, m);
    float_laws::lemma_round_exact(0, m);
    assert(m * pow2(149) == pow2(149) * m) by (nonlinear_arith);
    assert(0 * pow2(149) == 0 && 0 * m == 0) by (nonlinear_arith);
    reveal(F32::spec_div);
    float_laws::lemma_assemble(d.negative(), ONE as nat);
}

/// The part of a momentum along a horizontal push, which it goes against.
proof fn lemma_along(d: F32, momentum: Vec2)
    requires
        0x2080_0000 <= d.mag() < 0x5e80_0000,
        0x80_0000 <= momentum.x.mag() < 0x7f00_0000,
        momentum.x.negative() != d.negative(),
        momentum.y.finite(),
    ensures
        ({
            let push = Vec2 { x: d, y: F32 { bits: 0 } };
            let length = push.spec_length();
            let normal = Vec2 { x: d.spec_div(length), y: (F32 { bits: 0 }).spec_div(length) };
            let along = momentum.spec_dot(normal);
            &&& along == float::assemble(true, momentum.x.mag())
            &&& along.spec_lt(F32 { bits: 0 })
        }),
{
    let zero = F32 { bits: 0 };
    let push = Vec2 { x: d, y: zero };
    let x = d.spec_div(push.spec_length());
    lemma_direction(d);
    lemma_times_unit(momentum.x, x);
    lemma_times_zero(momentum.y, zero);
    let p = momentum.x.spec_mul(x);
    float_laws::lemma_parts(momentum.x);
    float_laws::lemma_assemble(!momentum.x.negative(), momentum.x.mag());
    assert(p == float::assemble(true, momentum.x.mag()));
    float_laws::lemma_assemble(true, momentum.x.mag());
    lemma_plus_zero(p, momentum.y.spec_mul(zero));
    reveal(F32::spec_lt);
    float_laws::law_zero_is_zero(zero);
    float::lemma_magnitude_monotone(0, momentum.x.mag());
}

/// An object that goes against a horizontal push is thrown back by it if all of the
/// momentum comes back, and loses its momentum along the push if none does; its
/// momentum across the push stays what it is.
pub proof fn law_wall_throws_back(d: F32, momentum: Vec2)
    requires
        0x2080_0000 <= d.mag() < 0x5e80_0000,
        0x80_0000 <= momentum.x.mag() < 0x7f00_0000,
        momentum.x.negative() != d.negative(),
        momentum.y.finite(),
    ensures
        ({
            let push = Vec2 { x: d, y: F32 { bits: 0 } };
            let elastic = model::cancelled(push, momentum, F32 { bits: ONE });
            let absorbed = model::cancelled(push, momentum, F32 { bits: 0 });
            &&& momentum.x.spec_sub(elastic.x) == momentum.x.spec_neg()
            &&& momentum.x.spec_sub(absorbed.x).bits == 0
            &&& momentum.y.spec_sub(elastic.y).value() == momentum.y.value()
            &&& momentum.y.spec_sub(absorbed.y).value() == momentum.y.value()
        }),
{
    let zero = F32 { bits: 0 };
    let push = Vec2 { x: d, y: zero };
    let x = d.spec_div(push.spec_length());
    let along = float::assemble(true, momentum.x.mag());
    let twice = float::assemble(true, momentum.x.mag() + 0x80_0000);
    lemma_direction(d);
    lemma_along(d, momentum);
    lemma_one_and_more();
    float_laws::lemma_assemble(true, momentum.x.mag());
    float_laws::lemma_assemble(true, momentum.x.mag() + 0x80_0000);
    float_laws::lemma_parts(momentum.x);
    lemma_double(along);
    lemma_times_unit(along, F32 { bits: ONE });
    lemma_times_unit(twice, x);
    lemma_times_unit(along, x);
    float_laws::law_product_commutes(x, twice);
    float_laws::law_product_commutes(x, along);
    lemma_less_double(momentum.x);
    lemma_less_itself(momentum.x);
    lemma_times_zero(twice, zero);
    lemma_times_zero(along, zero);
    lemma_less_zero(momentum.y, zero.spec_mul(twice));
    lemma_less_zero(momentum.y, zero.spec_mul(along));
}

/// Taking zero, of either sign, away leaves the value.
proof fn lemma_less_zero(x: F32, z: F32)
    requires
        x.finite(),
        z.mag() == 0,
    ensures
        x.spec_sub(z).value() == x.value(),
{
    let minus = z.spec_neg();
    float_laws::lemma_assemble(!z.negative(), 0);
    if x.mag() != 0 {
        lemma_plus_zero(x, minus);
    } else {
        reveal(F32::spec_add);
        float_laws::law_zero_is_zero(x);
        float_laws::law_zero_is_zero(minus);
        float_laws::lemma_assemble(x.negative() && minus.negative(), 0);
        float_laws::law_zero_is_zero(float::assemble(x.negative() && minus.negative(), 0));
    }
}

/// The same with a vertical push: what falls onto a floor is thrown up by it if all
/// of the momentum comes back, and comes to rest if none does.
pub proof fn law_floor_throws_up(d: F32, momentum: Vec2)
    requires
        0x2080_0000 <= d.mag() < 0x5e80_0000,
        0x80_0000 <= momentum.y.mag() < 0x7f00_0000,
        momentum.y.negative() != d.negative(),
        momentum.x.finite(),
    ensures
        ({
            let push = Vec2 { x: F32 { bits: 0 }, y: d };
            let elastic = model::cancelled(push, momentum, F32 { bits: ONE });
            let absorbed = model::cancelled(push, momentum, F32 { bits: 0 });
            &&& momentum.y.spec_sub(elastic.y) == momentum.y.spec_neg()
            &&& momentum.y.spec_sub(absorbed.y).bits == 0
            &&& momentum.x.spec_sub(elastic.x).value() == momentum.x.value()
            &&& momentum.x.spec_sub(absorbed.x).value() == momentum.x.value()
        }),
{
    let push = Vec2 { x: d, y: F32 { bits: 0 } };
    let turned = push_laws::swapped(momentum);
    law_wall_throws_back(d, turned);
    push_laws::law_axes_count_alike(push, turned, F32 { bits: ONE });
    push_laws::law_axes_count_alike(push, turned, F32 { bits: 0 });
}

} // verus!
