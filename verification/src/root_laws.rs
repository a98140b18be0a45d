//! Laws on square roots, and on numbers that are infinite or no numbers at all.

use crate::float;
use crate::float::F32;
use crate::float_laws;
use crate::nearest_laws;
use crate::rounding;
use vstd::arithmetic::power2::*;
use vstd::prelude::*;

verus! {

// ---- roots ----

proof fn lemma_integer_root(n: nat) -> (t: nat)
    ensures
        t * t <= n < (t + 1) * (t + 1),
    decreases n,
{
    if n == 0 {
        let t: nat = 0;
        assert(t * t == 0 && (t + 1) * (t + 1) == 1) by (nonlinear_arith)
            requires
                t == 0,
        ;
        t
    } else {
        let t = lemma_integer_root((n - 1) as nat);
        if n < (t + 1) * (t + 1) {
            t
        } else {
            let next = t + 1;
            assert((next + 1) * (next + 1) > next * next) by (nonlinear_arith);
            next
        }
    }
}

proof fn lemma_root_quantum_bounds(n: nat)
    ensures
        n < pow2(48 + 2 * rounding::root_quantum(n)),
        rounding::root_quantum(n) > 0 ==> n >= pow2((46 + 2 * rounding::root_quantum(n)) as nat),
    decreases n,
{
    lemma2_to64();
    lemma2_to64_rest();
    if n >= 0x1_0000_0000_0000 {
        lemma_root_quantum_bounds(n / 4);
        let k = rounding::root_quantum(n / 4);
        lemma_pow2_unfold(50 + 2 * k);
        lemma_pow2_unfold(49 + 2 * k);
        lemma_pow2_unfold((48 + 2 * k) as nat);
        lemma_pow2_unfold((47 + 2 * k) as nat);
    }
}

proof fn lemma_nearest_root_exists(n: nat, unit: nat) -> (s: nat)
    requires
        unit > 0,
    ensures
        rounding::nearest_root(s, n, unit),
{
    let u = unit * unit;
    assert(u > 0) by (nonlinear_arith)
        requires
            unit > 0,
            u == unit * unit,
    ;
    let m = (4 * n) / u;
    let rest = (4 * n) % u;
    vstd::arithmetic::div_mod::lemma_fundamental_div_mod((4 * n) as int, u as int);
    let t = lemma_integer_root(m);
    let s = (t + 1) / 2;
    assert(4 * n < (m + 1) * u) by (nonlinear_arith)
        requires
            4 * n == u * m + rest,
            rest < u,
    ;
    assert(m * u <= 4 * n) by (nonlinear_arith)
        requires
            4 * n == u * m + rest,
            rest >= 0,
    ;
    let hi = 2 * s + 1;
    assert((m + 1) * u <= hi * hi * u) by (nonlinear_arith)
        requires
            m + 1 <= (t + 1) * (t + 1),
            hi >= t + 1,
            u > 0,
    ;
    if s > 0 {
        let lo = 2 * s - 1;
        assert(lo * lo * u <= m * u) by (nonlinear_arith)
            requires
                0 <= lo <= t,
                t * t <= m,
                u > 0,
        ;
    }
    s
}

/// The significand of a rounded root has 24 bits.
proof fn lemma_root_significand(c: nat, n: nat, k: nat)
    requires
        rounding::nearest_root(c, n, pow2(k)),
        n < pow2(48 + 2 * k),
        k > 0 ==> n >= pow2((46 + 2 * k) as nat),
    ensures
        c <= 0x100_0000,
        k > 0 ==> c >= 0x80_0000,
{
    let t = pow2(k);
    let u = t * t;
    lemma2_to64();
    lemma2_to64_rest();
    lemma_pow2_pos(k);
    lemma_pow2_adds(k, k);
    lemma_pow2_adds(48, 2 * k);
    lemma_pow2_adds(46, 2 * k);
    assert(u > 0);
    if c > 0x100_0000 {
        let lo = 2 * c - 1;
        assert(lo * lo * u >= 0x4_0000_0000_0000 * u) by (nonlinear_arith)
            requires
                lo >= 0x200_0000,
                u > 0,
        ;
    }
    if k > 0 && c < 0x80_0000 {
        let hi = 2 * c + 1;
        assert(hi * hi * u <= 0x1_0000_0000_0000 * u) by (nonlinear_arith)
            requires
                0 <= hi <= 0x100_0000,
                u > 0,
        ;
    }
}

/// What the root of a positive number is made of.
proof fn lemma_root_parts(x: F32) -> (r: (nat, nat))
    requires
        x.finite(),
        !x.negative(),
        x.mag() != 0,
    ensures
        ({
            let (c, k) = r;
            let n = float::magnitude(x.mag()) * pow2(149);
            &&& rounding::nearest_root(c, n, pow2(k))
            &&& n < pow2(48 + 2 * k)
            &&& k > 0 ==> n >= pow2((46 + 2 * k) as nat)
            &&& c <= 0x100_0000
            &&& k > 0 ==> c >= 0x80_0000
            &&& k <= 200
            &&& x.spec_sqrt() == float::assemble(false, k * 0x80_0000 + c)
        }),
{
    reveal(F32::spec_sqrt);
    let m = float::magnitude(x.mag());
    let n = m * pow2(149);
    let k = rounding::root_quantum(n);
    lemma_root_quantum_bounds(n);
    lemma_pow2_pos(k);
    let s = lemma_nearest_root_exists(n, pow2(k));
    let c = choose|s: nat| rounding::nearest_root(s, n, pow2(k));
    assert(rounding::nearest_root(c, n, pow2(k)));
    lemma_root_significand(c, n, k);
    let e = float::exponent(x.mag());
    lemma2_to64();
    lemma_pow2_pos(e);
    lemma_pow2_pos(149);
    lemma_pow2_adds(24, e);
    lemma_pow2_adds(24 + e, 149);
    assert(n < pow2((173 + e) as nat)) by (nonlinear_arith)
        requires
            n == (float::significand(x.mag()) * pow2(e)) * pow2(149),
            float::significand(x.mag()) < 0x100_0000,
            pow2(24 + e) == 0x100_0000 * pow2(e),
            pow2((173 + e) as nat) == pow2(24 + e) * pow2(149),
            pow2(e) > 0,
            pow2(149) > 0,
    ;
    if k > 200 {
        lemma_pow2_strictly_increases(173 + e, (46 + 2 * k) as nat);
    }
    (c, k)
}

/// No number is nearer to the root of a positive number than the rounded root `r`:
/// a larger one, `y`, is so much larger that the root is below the middle between
/// them, and a smaller one so much smaller that the root is not below the middle.
pub proof fn law_root_is_nearest(x: F32, y: F32)
    requires
        x.finite(),
        !x.negative(),
        x.mag() != 0,
        y.finite(),
        !y.negative(),
    ensures
        ({
            let r = x.spec_sqrt();
            let n = x.value() * pow2(149);
            let both = r.value() + y.value();
            &&& r.finite()
            &&& !r.negative()
            &&& y.value() > r.value() ==> both * both > 4 * n
            &&& y.value() < r.value() ==> both * both <= 4 * n
        }),
{
    let r = x.spec_sqrt();
    let n = float::magnitude(x.mag()) * pow2(149);
    let (c, k) = lemma_root_parts(x);
    let t = pow2(k);
    let u = t * t;
    let bits = k * 0x80_0000 + c;
    lemma_pow2_pos(k);
    nearest_laws::lemma_bits_of_multiple(k, c);
    float_laws::lemma_assemble(false, bits);
    let v = r.value();
    let w = y.value();
    let both = v + w;
    assert(v == c * t);
    assert(u > 0) by (nonlinear_arith)
        requires
            t > 0,
            u == t * t,
    ;
    if w > v {
        if y.mag() < bits {
            float::lemma_magnitude_monotone(y.mag(), bits);
        }
        lemma_next(k, c);
        if y.mag() > bits + 1 {
            float::lemma_magnitude_monotone(bits + 1, y.mag());
        }
        let hi = 2 * c + 1;
        assert(both * both >= hi * hi * u) by (nonlinear_arith)
            requires
                both >= c * t + (c + 1) * t,
                hi == 2 * c + 1,
                u == t * t,
                t > 0,
        ;
    }
    if w < v {
        if y.mag() > bits {
            float::lemma_magnitude_monotone(bits, y.mag());
        }
        if c == 0 {
            assert(v == 0) by (nonlinear_arith)
                requires
                    v == 0 * t,
            ;
        }
        lemma_smaller(k, c, n, y.mag());
    }
}

/// The next magnitude is at least one unit larger.
proof fn lemma_next(k: nat, c: nat)
    requires
        c <= 0x100_0000,
        k > 0 ==> c >= 0x80_0000,
    ensures
        float::magnitude(k * 0x80_0000 + c + 1) >= (c + 1) * pow2(k),
{
    lemma_pow2_pos(k);
    if c < 0x100_0000 {
        nearest_laws::lemma_bits_of_multiple(k, c + 1);
    } else {
        nearest_laws::lemma_bits_of_multiple(k + 1, 0x80_0001);
        lemma_pow2_unfold(k + 1);
        let t = pow2(k);
        assert(k * 0x80_0000 + c + 1 == (k + 1) * 0x80_0000 + 0x80_0001);
        assert((c + 1) * t == 0x100_0001 * t) by (nonlinear_arith)
            requires
                c == 0x100_0000,
        ;
    }
}

/// The middle between a root and a smaller magnitude is not above what the root is
/// rounded from.
proof fn lemma_smaller(k: nat, c: nat, n: nat, mag: nat)
    requires
        0 < c <= 0x100_0000,
        k > 0 ==> c >= 0x80_0000,
        k <= 200,
        rounding::nearest_root(c, n, pow2(k)),
        k > 0 ==> n >= pow2((46 + 2 * k) as nat),
        mag < k * 0x80_0000 + c,
    ensures
        ({
            let both = c * pow2(k) + float::magnitude(mag);
            both * both <= 4 * n
        }),
{
    let t = pow2(k);
    let u = t * t;
    let bits = k * 0x80_0000 + c;
    let w = float::magnitude(mag);
    let both = c * t + w;
    lemma2_to64();
    lemma2_to64_rest();
    lemma_pow2_pos(k);
    lemma_pow2_adds(k, k);
    lemma_pow2_adds(46, 2 * k);
    if c == 0x80_0000 && k > 0 {
        nearest_laws::lemma_bits_of_multiple(k, c);
        float::lemma_magnitude_monotone(mag, bits);
        assert(both * both <= 0x1_0000_0000_0000 * u) by (nonlinear_arith)
            requires
                0 <= both <= 0x100_0000 * t,
                u == t * t,
        ;
    } else {
        nearest_laws::lemma_bits_of_multiple(k, (c - 1) as nat);
        if mag < bits - 1 {
            float::lemma_magnitude_monotone(mag, (bits - 1) as nat);
        }
        let lo = 2 * c - 1;
        assert(both * both <= lo * lo * u) by (nonlinear_arith)
            requires
                0 <= both <= c * t + (c - 1) * t,
                lo == 2 * c - 1,
                u == t * t,
                t > 0,
        ;
    }
}

/// The root of zero is that zero, that of positive infinity is infinity, and a
/// negative number has none.
pub proof fn law_roots_of_special_numbers(x: F32)
    ensures
        x.mag() == 0 ==> x.spec_sqrt() == x,
        x.infinite() && !x.negative() ==> x.spec_sqrt() == x,
        x.nan() || (x.negative() && x.mag() != 0) ==> x.spec_sqrt().nan(),
{
    reveal(F32::spec_sqrt);
}

// ---- signs and infinities ----

/// A product, and a quotient, is negative if and only if one of both numbers is.
pub proof fn law_signs_multiply(a: F32, b: F32)
    ensures
        !a.spec_mul(b).nan() ==> (a.spec_mul(b).negative() <==> a.negative() != b.negative()),
        !a.spec_div(b).nan() ==> (a.spec_div(b).negative() <==> a.negative() != b.negative()),
{
    reveal(F32::spec_mul);
    reveal(F32::spec_div);
    let negative = a.negative() != b.negative();
    let m = float::magnitude(a.mag());
    let n = float::magnitude(b.mag());
    float_laws::lemma_round_bits_bounded(m * n, pow2(149));
    float_laws::lemma_round_bits_bounded(m * pow2(149), n);
    float_laws::lemma_assemble(negative, rounding::round_bits(m * n, pow2(149)));
    float_laws::lemma_assemble(negative, rounding::round_bits(m * pow2(149), n));
    float_laws::lemma_assemble(negative, 0x7f80_0000);
    float_laws::lemma_assemble(negative, 0);
}

/// What there is no number for: infinities of different signs have no sum, zero and
/// infinity no product, two zeros and two infinities no quotient. Nothing is
/// computed from what is not a number, and from all other numbers something is.
pub proof fn law_what_is_not_a_number(a: F32, b: F32)
    ensures
        a.spec_add(b).nan() <==> a.nan() || b.nan() || (a.infinite() && b.infinite() && a.negative()
            != b.negative()),
        a.spec_mul(b).nan() <==> a.nan() || b.nan() || (a.infinite() && b.mag() == 0) || (a.mag()
            == 0 && b.infinite()),
        a.spec_div(b).nan() <==> a.nan() || b.nan() || (a.infinite() && b.infinite()) || (a.mag()
            == 0 && b.mag() == 0),
{
    reveal(F32::spec_add);
    reveal(F32::spec_mul);
    reveal(F32::spec_div);
    let negative = a.negative() != b.negative();
    let m = float::magnitude(a.mag());
    let n = float::magnitude(b.mag());
    let sum = a.value() + b.value();
    float_laws::lemma_round_bits_bounded(m * n, pow2(149));
    float_laws::lemma_round_bits_bounded(m * pow2(149), n);
    float_laws::lemma_round_bits_bounded(sum as nat, 1);
    float_laws::lemma_round_bits_bounded((-sum) as nat, 1);
    float_laws::lemma_assemble(negative, rounding::round_bits(m * n, pow2(149)));
    float_laws::lemma_assemble(negative, rounding::round_bits(m * pow2(149), n));
    float_laws::lemma_assemble(negative, 0x7f80_0000);
    float_laws::lemma_assemble(negative, 0);
    float_laws::lemma_assemble(a.negative() && b.negative(), 0);
    float_laws::lemma_assemble(false, rounding::round_bits(sum as nat, 1));
    float_laws::lemma_assemble(true, rounding::round_bits((-sum) as nat, 1));
}

/// Infinity and a finite number make infinity, whatever is added or multiplied. A
/// number divided by infinity is zero, and one divided by zero is infinite.
pub proof fn law_infinities(a: F32, b: F32)
    ensures
        a.infinite() && b.finite() ==> a.spec_add(b) == a && b.spec_add(a) == a,
        a.infinite() && !b.nan() && b.mag() != 0 ==> a.spec_mul(b).infinite() && b.spec_mul(
            a,
        ).infinite(),
        a.infinite() && b.finite() ==> b.spec_div(a).mag() == 0 && a.spec_div(b).infinite(),
        a.mag() == 0 && b.mag() != 0 && !b.nan() ==> b.spec_div(a).infinite(),
{
    reveal(F32::spec_add);
    reveal(F32::spec_mul);
    reveal(F32::spec_div);
    float_laws::lemma_assemble(a.negative() != b.negative(), 0x7f80_0000);
    float_laws::lemma_assemble(a.negative() != b.negative(), 0);
}

} // verus!
