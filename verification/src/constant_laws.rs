//! Laws on constants: each is the nearest number to what it stands for.

use crate::background;
use crate::float;
use crate::float::F32;
use crate::model;
use crate::nearest_laws;
use crate::outline;
use crate::polygon;
use crate::rounding;
use crate::sat;
use crate::simplify;
use crate::vec2;
use vstd::arithmetic::power2::*;
use vstd::prelude::*;

verus! {

/// No number is nearer to `p / q` than `x`.
pub open spec fn stands_for(x: F32, p: int, q: nat) -> bool {
    &&& x.finite()
    &&& forall|y: F32|
        #![trigger y.value()]
        y.finite() ==> nearest_laws::gap(x.value() * q, p * pow2(149)) <= nearest_laws::gap(
            y.value() * q,
            p * pow2(149),
        )
}

/// A number stands for `p / q` if its significand is nearest to `p / q` in units of
/// its last place.
pub proof fn lemma_stands_for(x: F32, p: int, q: nat, shift: nat, unit: nat)
    requires
        q > 0,
        x.finite(),
        x.mag() >= 0x80_0000,
        float::exponent(x.mag()) + shift == 149,
        unit == pow2(shift),
        p != 0,
        x.negative() <==> p < 0,
        2 * nearest_laws::gap(
            (float::significand(x.mag()) * q) as int,
            (if p < 0 {
                -p
            } else {
                p
            }) * unit,
        ) < q,
        float::significand(x.mag()) < 0xff_ffff,
        float::significand(x.mag()) > 0x80_0000 || (if p < 0 {
            -p
        } else {
            p
        }) * unit == 0x80_0000 * q,
    ensures
        stands_for(x, p, q),
{
    let e = float::exponent(x.mag());
    let s = float::significand(x.mag());
    let a = (if p < 0 {
        -p
    } else {
        p
    }) as nat;
    let t = pow2(e);
    let n = a * unit;
    let num = a * pow2(149);
    let below = if s * q <= n {
        s
    } else {
        (s - 1) as nat
    };
    let rest = (n - below * q) as nat;
    lemma2_to64();
    lemma_pow2_pos(e);
    lemma_pow2_pos(149);
    lemma_pow2_adds(e, shift);
    lemma_pow2_adds(24, e);
    lemma_pow2_adds(23, e);
    assert((s - 1) * q == s * q - q) by (nonlinear_arith);
    assert(num == n * t) by (nonlinear_arith)
        requires
            num == a * pow2(149),
            n == a * unit,
            pow2(149) == t * unit,
    ;
    assert(q * t > 0) by (nonlinear_arith)
        requires
            q > 0,
            t > 0,
    ;
    assert(num == below * (q * t) + rest * t) by (nonlinear_arith)
        requires
            num == n * t,
            n == below * q + rest,
    ;
    assert(rest * t < q * t && (2 * rest < q ==> 2 * (rest * t) < q * t) && (2 * rest > q ==> 2 * (
    rest * t) > q * t)) by (nonlinear_arith)
        requires
            rest < q,
            t > 0,
    ;
    lemma_quantum_of(x, q, n, t, num);
    rounding::lemma_nearest(num, q * t, below, rest * t);
    assert(rounding::round_bits(num, q) == x.mag());
    assert(p * pow2(149) == (if p < 0 {
        -(num as int)
    } else {
        num as int
    })) by (nonlinear_arith)
        requires
            num == a * pow2(149),
            a == if p < 0 {
                -p
            } else {
                p
            },
    ;
    assert(num > 0) by (nonlinear_arith)
        requires
            num == a * pow2(149),
            a > 0,
            pow2(149) > 0,
    ;
    assert forall|y: F32|
        #![trigger y.value()]
        y.finite() implies nearest_laws::gap(x.value() * q, p * pow2(149)) <= nearest_laws::gap(
        y.value() * q,
        p * pow2(149),
    ) by {
        nearest_laws::lemma_signed(p * pow2(149), q, x, y);
    }
}

proof fn lemma_quantum_of(x: F32, q: nat, n: nat, t: nat, num: nat)
    requires
        q > 0,
        x.finite(),
        x.mag() >= 0x80_0000,
        t == pow2(float::exponent(x.mag())),
        num == n * t,
        2 * nearest_laws::gap((float::significand(x.mag()) * q) as int, n as int) < q,
        float::significand(x.mag()) < 0xff_ffff,
        float::significand(x.mag()) > 0x80_0000 || n == 0x80_0000 * q,
    ensures
        rounding::quantum(num, q) == float::exponent(x.mag()),
{
    let e = float::exponent(x.mag());
    let s = float::significand(x.mag());
    lemma2_to64();
    lemma_pow2_pos(e);
    lemma_pow2_adds(24, e);
    lemma_pow2_adds(23, e);
    assert(n < 0x100_0000 * q) by (nonlinear_arith)
        requires
            s < 0xff_ffff,
            2 * n < 2 * (s * q) + q,
            q > 0,
    ;
    assert(num < q * pow2(24 + e)) by (nonlinear_arith)
        requires
            n < 0x100_0000 * q,
            num == n * t,
            t > 0,
            pow2(24 + e) == 0x100_0000 * t,
    ;
    assert(n >= 0x80_0000 * q) by (nonlinear_arith)
        requires
            s > 0x80_0000 || n == 0x80_0000 * q,
            2 * n > 2 * (s * q) - q,
            q > 0,
    ;
    assert(num >= q * pow2((23 + e) as nat)) by (nonlinear_arith)
        requires
            n >= 0x80_0000 * q,
            num == n * t,
            t > 0,
            pow2((23 + e) as nat) == 0x80_0000 * t,
    ;
    rounding::lemma_quantum(num, q, e);
}

/// The shortest push that counts, squared, is 1e-10, and a push adds 0.01 to the
/// depth of an overlap. The circumference of the unit circle is 6.283185307179586.
pub proof fn law_push_constants_are_nearest()
    ensures
        stands_for(F32 { bits: model::NO_PUSH }, 1, 10_000_000_000),
        stands_for(F32 { bits: sat::CLEARANCE }, 1, 100),
        stands_for(F32 { bits: sat::TAU }, 6_283_185_307_179_586, 1_000_000_000_000_000),
{
    lemma2_to64();
    lemma_pow2_adds(32, 25);
    lemma_stands_for(F32 { bits: model::NO_PUSH }, 1, 10_000_000_000, 57, 0x200_0000_0000_0000);
    lemma_stands_for(F32 { bits: sat::CLEARANCE }, 1, 100, 30, 0x4000_0000);
    lemma_stands_for(F32 { bits: sat::TAU }, 6_283_185_307_179_586, 1_000_000_000_000_000, 21, 0x20_0000);
}

/// A background is looked for where 0.9 of the image is filled, and removed where
/// that leaves between 0.015 and 0.97 of it.
pub proof fn law_background_constants_are_nearest()
    ensures
        stands_for(F32 { bits: background::LEAST_FILL }, 9, 10),
        stands_for(F32 { bits: background::LEAST_KEPT }, 15, 1_000),
        stands_for(F32 { bits: background::MOST_KEPT }, 97, 100),
{
    lemma2_to64();
    lemma_stands_for(F32 { bits: background::LEAST_FILL }, 9, 10, 24, 0x100_0000);
    lemma_stands_for(F32 { bits: background::LEAST_KEPT }, 15, 1_000, 30, 0x4000_0000);
    lemma_stands_for(F32 { bits: background::MOST_KEPT }, 97, 100, 24, 0x100_0000);
}

/// A jump is longer than 6 and than 4.5 times the average. A segment is a point
/// where its square is less than 1e-12, and vertices closer than 1.5 are merged.
pub proof fn law_contour_constants_are_nearest()
    ensures
        stands_for(F32 { bits: simplify::LONG_STEP }, 6, 1),
        stands_for(F32 { bits: simplify::JUMP_FACTOR }, 9, 2),
        stands_for(F32 { bits: simplify::NO_LENGTH }, 1, 1_000_000_000_000),
        stands_for(F32 { bits: outline::VERTEX_GAP }, 3, 2),
{
    lemma2_to64();
    lemma_stands_for(F32 { bits: simplify::LONG_STEP }, 6, 1, 21, 0x20_0000);
    lemma_stands_for(F32 { bits: simplify::JUMP_FACTOR }, 9, 2, 21, 0x20_0000);
    lemma_pow2_adds(32, 31);
    lemma_stands_for(F32 { bits: simplify::NO_LENGTH }, 1, 1_000_000_000_000, 63, 0x8000_0000_0000_0000);
    lemma_stands_for(F32 { bits: outline::VERTEX_GAP }, 3, 2, 23, 0x80_0000);
}

/// A vector shorter than 1e-8 has no direction, and a turn less than 1e-8 to either
/// side is none. Points closer than 1e-4 are one. A hull has an area of more than
/// 1e-3 to be compared with, and a polygon that fills 0.94 of it is taken for
/// convex.
pub proof fn law_polygon_constants_are_nearest()
    ensures
        stands_for(F32 { bits: vec2::NO_DIRECTION }, 1, 100_000_000),
        stands_for(F32 { bits: polygon::RIGHT_TURN }, -1, 100_000_000),
        stands_for(F32 { bits: polygon::SAME_POINT }, 1, 10_000),
        stands_for(F32 { bits: outline::LEAST_AREA }, 1, 1_000),
        stands_for(F32 { bits: outline::NEARLY_CONVEX }, 94, 100),
{
    lemma2_to64();
    lemma_pow2_adds(32, 18);
    lemma_stands_for(F32 { bits: vec2::NO_DIRECTION }, 1, 100_000_000, 50, 0x4_0000_0000_0000);
    lemma_pow2_adds(32, 18);
    lemma_stands_for(F32 { bits: polygon::RIGHT_TURN }, -1, 100_000_000, 50, 0x4_0000_0000_0000);
    lemma_pow2_adds(32, 5);
    lemma_stands_for(F32 { bits: polygon::SAME_POINT }, 1, 10_000, 37, 0x20_0000_0000);
    lemma_pow2_adds(32, 1);
    lemma_stands_for(F32 { bits: outline::LEAST_AREA }, 1, 1_000, 33, 0x2_0000_0000);
    lemma_stands_for(F32 { bits: outline::NEARLY_CONVEX }, 94, 100, 24, 0x100_0000);
}

/// A rotation of less than 1e-6 is none; a half, one and minus one are what they
/// are called.
pub proof fn law_other_constants_are_nearest()
    ensures
        stands_for(F32 { bits: outline::NO_ROTATION }, 1, 1_000_000),
        stands_for(F32 { bits: simplify::HALF }, 1, 2),
        stands_for(F32 { bits: simplify::ONE }, 1, 1),
        stands_for(F32 { bits: vec2::MINUS_ONE }, -1, 1),
{
    lemma2_to64();
    lemma_pow2_adds(32, 11);
    lemma_stands_for(F32 { bits: outline::NO_ROTATION }, 1, 1_000_000, 43, 0x800_0000_0000);
    lemma_stands_for(F32 { bits: simplify::HALF }, 1, 2, 24, 0x100_0000);
    lemma_stands_for(F32 { bits: simplify::ONE }, 1, 1, 23, 0x80_0000);
    lemma_stands_for(F32 { bits: vec2::MINUS_ONE }, -1, 1, 23, 0x80_0000);
}

} // verus!
