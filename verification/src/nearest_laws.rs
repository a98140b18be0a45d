//! Laws on rounding: no other number is nearer to the exact result.

use crate::float;
use crate::float::F32;
use crate::float_laws;
use crate::rounding;
use vstd::arithmetic::power2::*;
use vstd::prelude::*;

verus! {

/// The distance of two integers.
pub open spec fn gap(a: int, b: int) -> int {
    if a < b {
        b - a
    } else {
        a - b
    }
}

/// Numbers are ordered by their values; nothing is ordered with what is not a
/// number.
pub proof fn law_order_is_by_value(a: F32, b: F32)
    ensures
        a.spec_lt(b) <==> !a.nan() && !b.nan() && a.value() < b.value(),
        a.spec_le(b) <==> !a.nan() && !b.nan() && a.value() <= b.value(),
{
    reveal(F32::spec_lt);
    reveal(F32::spec_le);
}

/// The smaller of two numbers is one of them, and neither is less; what is not a
/// number does not count.
pub proof fn law_smaller_is_one_of_both(a: F32, b: F32)
    ensures
        a.spec_min(b) == a || a.spec_min(b) == b,
        !a.nan() && !b.nan() ==> a.spec_min(b).value() <= a.value() && a.spec_min(b).value()
            <= b.value(),
        a.nan() ==> a.spec_min(b) == b,
        b.nan() && !a.nan() ==> a.spec_min(b) == a,
{
    reveal(F32::spec_lt);
}

/// A number without its sign has the same magnitude.
pub proof fn law_absolute_value_has_no_sign(a: F32)
    ensures
        a.spec_abs().value() == if a.value() < 0 {
            -a.value()
        } else {
            a.value()
        },
        !a.spec_abs().negative(),
{
    float_laws::lemma_parts(a);
    float_laws::lemma_assemble(false, a.mag());
}

proof fn lemma_quantum_bounds(num: nat, den: nat)
    requires
        den > 0,
    ensures
        num < den * pow2(24 + rounding::quantum(num, den)),
        rounding::quantum(num, den) > 0 ==> num >= den * pow2(
            (23 + rounding::quantum(num, den)) as nat,
        ),
    decreases num - den,
{
    lemma2_to64();
    if num >= den * 0x100_0000 {
        let k = rounding::quantum(num, 2 * den);
        lemma_quantum_bounds(num, 2 * den);
        lemma_pow2_unfold((25 + k) as nat);
        lemma_pow2_unfold((24 + k) as nat);
        assert((2 * den) * pow2((24 + k) as nat) == den * pow2((25 + k) as nat)) by (
        nonlinear_arith)
            requires
                pow2((25 + k) as nat) == 2 * pow2((24 + k) as nat),
        ;
        if k > 0 {
            assert((2 * den) * pow2((23 + k) as nat) == den * pow2((24 + k) as nat)) by (
            nonlinear_arith)
                requires
                    pow2((24 + k) as nat) == 2 * pow2((23 + k) as nat),
            ;
        }
    }
}

/// The nearest multiple of a unit is as near as any other.
pub proof fn lemma_nearest_multiple(num: nat, unit: nat, t: int)
    requires
        unit > 0,
    ensures
        gap((rounding::nearest(num, unit) * unit) as int, num as int) <= gap(t * unit, num as int),
{
    let below = num / unit;
    let rest = num % unit;
    vstd::arithmetic::div_mod::lemma_fundamental_div_mod(num as int, unit as int);
    let s = rounding::nearest(num, unit);
    assert(below * unit + rest == num) by (nonlinear_arith)
        requires
            num == unit * below + rest,
    ;
    assert((below + 1) * unit == below * unit + unit) by (nonlinear_arith);
    if t <= below {
        assert(t * unit <= below * unit) by (nonlinear_arith)
            requires
                t <= below,
                unit > 0,
        ;
    } else {
        assert(t * unit >= (below + 1) * unit) by (nonlinear_arith)
            requires
                t >= below + 1,
                unit > 0,
        ;
    }
}

/// The bits of a multiple of a power of two.
pub proof fn lemma_bits_of_multiple(k: nat, s: nat)
    requires
        s <= 0x100_0000,
        k > 0 ==> s >= 0x80_0000,
    ensures
        float::magnitude(k * 0x80_0000 + s) == s * pow2(k),
{
    let bits = k * 0x80_0000 + s;
    lemma2_to64();
    lemma_pow2_unfold(k + 1);
    if s == 0x100_0000 {
        assert(bits == (k + 2) * 0x80_0000);
        assert(bits / 0x80_0000 == k + 2);
        assert(0x80_0000 * pow2(k + 1) == 0x100_0000 * pow2(k));
    } else if s >= 0x80_0000 {
        assert(bits == (k + 1) * 0x80_0000 + (s - 0x80_0000));
        assert(bits / 0x80_0000 == k + 1);
        assert(bits % 0x80_0000 == s - 0x80_0000);
    } else {
        assert(bits / 0x80_0000 == 0);
    }
}

/// Rounding leads to the nearest of all magnitudes.
pub proof fn law_rounding_is_nearest(num: nat, den: nat, m: nat)
    requires
        den > 0,
        rounding::round_bits(num, den) < 0x7f80_0000,
        m <= 0x7f80_0000,
    ensures
        gap((float::magnitude(rounding::round_bits(num, den)) * den) as int, num as int) <= gap(
            (float::magnitude(m) * den) as int,
            num as int,
        ),
{
    let k = rounding::quantum(num, den);
    let unit = den * pow2(k);
    let s = rounding::nearest(num, unit);
    let e = float::exponent(m);
    let g = float::significand(m);
    lemma2_to64();
    lemma_quantum_bounds(num, den);
    lemma_pow2_pos(k);
    lemma_pow2_pos(e);
    lemma_pow2_adds(24, k);
    lemma_pow2_adds(23, k);
    assert(unit > 0) by (nonlinear_arith)
        requires
            den > 0,
            pow2(k) > 0,
            unit == den * pow2(k),
    ;
    assert(den * (0x100_0000 * pow2(k)) == 0x100_0000 * unit) by (nonlinear_arith)
        requires
            unit == den * pow2(k),
    ;
    assert(den * (0x80_0000 * pow2(k)) == 0x80_0000 * unit) by (nonlinear_arith)
        requires
            unit == den * pow2(k),
    ;
    lemma_nearest_bounds(num, unit, k);
    lemma_bits_of_multiple(k, s);
    assert((s * pow2(k)) * den == s * unit) by (nonlinear_arith)
        requires
            unit == den * pow2(k),
    ;
    if e >= k {
        lemma_pow2_adds((e - k) as nat, k);
        let t = g * pow2((e - k) as nat);
        assert((g * pow2(e)) * den == t * unit) by (nonlinear_arith)
            requires
                pow2(e) == pow2((e - k) as nat) * pow2(k),
                t == g * pow2((e - k) as nat),
                unit == den * pow2(k),
        ;
        lemma_nearest_multiple(num, unit, t as int);
    } else {
        if e + 1 < k {
            lemma_pow2_strictly_increases(e + 1, k);
        }
        lemma_pow2_unfold(e + 1);
        assert((g * pow2(e)) * den <= 0x80_0000 * unit) by (nonlinear_arith)
            requires
                g < 0x100_0000,
                2 * pow2(e) <= pow2(k),
                unit == den * pow2(k),
        ;
        lemma_nearest_multiple(num, unit, 0x80_0000);
    }
}

proof fn lemma_nearest_bounds(num: nat, unit: nat, k: nat)
    requires
        unit > 0,
        num < 0x100_0000 * unit,
        k > 0 ==> num >= 0x80_0000 * unit,
    ensures
        rounding::nearest(num, unit) <= 0x100_0000,
        k > 0 ==> rounding::nearest(num, unit) >= 0x80_0000,
{
    let below = num / unit;
    let rest = num % unit;
    vstd::arithmetic::div_mod::lemma_fundamental_div_mod(num as int, unit as int);
    assert(below < 0x100_0000) by (nonlinear_arith)
        requires
            num == unit * below + rest,
            num < 0x100_0000 * unit,
            rest >= 0,
            unit > 0,
    ;
    if k > 0 {
        assert(below >= 0x80_0000) by (nonlinear_arith)
            requires
                num == unit * below + rest,
                num >= 0x80_0000 * unit,
                rest < unit,
                unit > 0,
        ;
    }
}

/// With a sign to the exact result, no number of either sign is nearer.
pub proof fn lemma_signed(exact: int, den: nat, r: F32, y: F32)
    requires
        den > 0,
        y.finite(),
        r.finite(),
        r.mag() == rounding::round_bits(
            (if exact < 0 {
                -exact
            } else {
                exact
            }) as nat,
            den,
        ),
        exact < 0 ==> r.negative(),
        exact > 0 ==> !r.negative(),
    ensures
        gap(r.value() * den, exact) <= gap(y.value() * den, exact),
{
    let num = (if exact < 0 {
        -exact
    } else {
        exact
    }) as nat;
    law_rounding_is_nearest(num, den, y.mag());
    law_rounding_is_nearest(num, den, 0);
    float_laws::law_zero_is_zero(F32 { bits: 0 });
    let m = float::magnitude(r.mag()) as int;
    let n = float::magnitude(y.mag()) as int;
    assert((-m) * den == -(m * den)) by (nonlinear_arith);
    assert((-n) * den == -(n * den)) by (nonlinear_arith);
    assert(n * den >= 0) by (nonlinear_arith)
        requires
            n >= 0,
    ;
    assert(float::magnitude(0) * den == 0) by (nonlinear_arith)
        requires
            float::magnitude(0) == 0,
    ;
    assert(m * den >= 0) by (nonlinear_arith)
        requires
            m >= 0,
    ;
}

/// No number is nearer to the sum of two numbers than their rounded sum.
pub proof fn law_sum_is_nearest(a: F32, b: F32, y: F32)
    requires
        a.finite(),
        b.finite(),
        y.finite(),
        a.spec_add(b).finite(),
    ensures
        gap(a.spec_add(b).value(), a.value() + b.value()) <= gap(y.value(), a.value() + b.value()),
{
    reveal(F32::spec_add);
    let sum = a.value() + b.value();
    let r = a.spec_add(b);
    if sum == 0 {
        float_laws::law_zero_is_zero(r);
    } else {
        let num = (if sum < 0 {
            -sum
        } else {
            sum
        }) as nat;
        float_laws::lemma_round_bits_bounded(num, 1);
        float_laws::lemma_assemble(sum < 0, rounding::round_bits(num, 1));
        lemma_signed(sum, 1, r, y);
    }
}

/// No number is nearer to the product of two numbers than their rounded product.
pub proof fn law_product_is_nearest(a: F32, b: F32, y: F32)
    requires
        a.finite(),
        b.finite(),
        y.finite(),
        a.spec_mul(b).finite(),
    ensures
        gap(a.spec_mul(b).value() * pow2(149), a.value() * b.value()) <= gap(
            y.value() * pow2(149),
            a.value() * b.value(),
        ),
{
    reveal(F32::spec_mul);
    let m = float::magnitude(a.mag()) as int;
    let n = float::magnitude(b.mag()) as int;
    let exact = a.value() * b.value();
    let negative = a.negative() != b.negative();
    lemma_pow2_pos(149);
    assert((-m) * n == -(m * n) && m * (-n) == -(m * n) && (-m) * (-n) == m * n) by (
    nonlinear_arith);
    assert(m * n >= 0) by (nonlinear_arith)
        requires
            m >= 0,
            n >= 0,
    ;
    float_laws::lemma_round_bits_bounded((m * n) as nat, pow2(149));
    float_laws::lemma_assemble(negative, rounding::round_bits((m * n) as nat, pow2(149)));
    lemma_signed(exact, pow2(149), a.spec_mul(b), y);
}

/// No number is nearer to the quotient of two numbers than their rounded quotient:
/// multiplied with the divisor it is no farther from the dividend.
pub proof fn law_quotient_is_nearest(a: F32, b: F32, y: F32)
    requires
        a.finite(),
        b.finite(),
        b.mag() != 0,
        y.finite(),
        a.spec_div(b).finite(),
    ensures
        gap(a.spec_div(b).value() * b.value(), a.value() * pow2(149)) <= gap(
            y.value() * b.value(),
            a.value() * pow2(149),
        ),
{
    reveal(F32::spec_div);
    let m = float::magnitude(a.mag()) as int;
    let n = float::magnitude(b.mag());
    let p = pow2(149) as int;
    let negative = a.negative() != b.negative();
    let r = a.spec_div(b);
    lemma_pow2_pos(149);
    float_laws::law_zero_is_zero(F32 { bits: 0 });
    float::lemma_magnitude_monotone(0, b.mag());
    assert(m * p >= 0) by (nonlinear_arith)
        requires
            m >= 0,
            p > 0,
    ;
    assert((-m) * p == -(m * p)) by (nonlinear_arith);
    float_laws::lemma_round_bits_bounded((m * p) as nat, n);
    float_laws::lemma_assemble(negative, rounding::round_bits((m * p) as nat, n));
    let exact = if negative {
        -(m * p)
    } else {
        m * p
    };
    lemma_signed(exact, n, r, y);
    let v = r.value();
    let w = y.value();
    assert(v * (-n) == -(v * n) && w * (-n) == -(w * n)) by (nonlinear_arith);
}

/// No number is nearer to an integer than the one that it is converted to.
pub proof fn law_integer_is_nearest(n: int, y: F32)
    requires
        F32::spec_from_int(n).finite(),
        y.finite(),
    ensures
        gap(F32::spec_from_int(n).value(), n * pow2(149)) <= gap(y.value(), n * pow2(149)),
{
    reveal(F32::spec_from_int);
    let p = pow2(149) as int;
    let num = (if n < 0 {
        -n
    } else {
        n
    }) * p;
    lemma_pow2_pos(149);
    assert(num >= 0) by (nonlinear_arith)
        requires
            num == (if n < 0 {
                -n
            } else {
                n
            }) * p,
            p > 0,
    ;
    assert((-n) * p == -(n * p)) by (nonlinear_arith);
    assert(n > 0 ==> n * p > 0) by (nonlinear_arith)
        requires
            p > 0,
    ;
    assert(n < 0 ==> n * p < 0) by (nonlinear_arith)
        requires
            p > 0,
    ;
    float_laws::lemma_round_bits_bounded(num as nat, 1);
    float_laws::lemma_assemble(n < 0, rounding::round_bits(num as nat, 1));
    lemma_signed(n * p, 1, F32::spec_from_int(n), y);
}

/// Every integer up to `2^24`, times a power of two that is large enough, is a
/// magnitude.
proof fn lemma_magnitude_of(n: nat, e: nat) -> (m: nat)
    requires
        0 < n <= 0x100_0000,
        e <= 149,
        n * pow2(e) >= 0x80_0000,
    ensures
        m <= 0x7f80_0000,
        float::magnitude(m) == n * pow2(e),
    decreases e,
{
    lemma2_to64();
    if n >= 0x80_0000 {
        lemma_bits_of_multiple(e, n);
        e * 0x80_0000 + n
    } else {
        if e == 0 {
            assert(n * pow2(0) == n);
        }
        lemma_pow2_unfold(e);
        let half = pow2((e - 1) as nat);
        assert(n * pow2(e) == (2 * n) * half) by (nonlinear_arith)
            requires
                pow2(e) == 2 * half,
        ;
        lemma_magnitude_of(2 * n, (e - 1) as nat)
    }
}

/// Integers up to `2^24` are numbers.
pub proof fn law_small_integer_is_exact(n: int)
    requires
        0 <= n <= 0x100_0000,
    ensures
        F32::spec_from_int(n).value() == n * pow2(149),
        F32::spec_from_int(n).finite(),
        !F32::spec_from_int(n).negative(),
{
    reveal(F32::spec_from_int);
    let p = pow2(149);
    let num = (n as nat) * p;
    lemma2_to64();
    lemma_pow2_adds(24, 125);
    lemma_pow2_pos(125);
    lemma_pow2_pos(149);
    assert(num <= 0x100_0000 * p) by (nonlinear_arith)
        requires
            num == n * p,
            n <= 0x100_0000,
            p >= 0,
    ;
    lemma_pow2_adds(24, 149);
    lemma_not_too_large(num, 1, 173);
    float_laws::lemma_assemble(false, rounding::round_bits(num, 1));
    if n == 0 {
        law_rounding_is_nearest(num, 1, 0);
        float_laws::law_zero_is_zero(F32 { bits: 0 });
        assert(num == 0) by (nonlinear_arith)
            requires
                num == 0 * p,
        ;
    } else {
        assert(num >= 0x80_0000) by (nonlinear_arith)
            requires
                num == n * p,
                n >= 1,
                p == 0x100_0000 * pow2(125),
                pow2(125) >= 1,
        ;
        let m = lemma_magnitude_of(n as nat, 149);
        law_rounding_is_nearest(num, 1, m);
    }
}

/// What is at most a power of two does not become infinite.
proof fn lemma_not_too_large(num: nat, den: nat, k: nat)
    requires
        den > 0,
        num <= den * pow2(k),
        24 <= k <= 200,
    ensures
        rounding::round_bits(num, den) < 0x7f80_0000,
{
    let q = rounding::quantum(num, den);
    lemma2_to64();
    lemma_quantum_bounds(num, den);
    lemma_pow2_pos(q);
    lemma_pow2_adds(24, q);
    lemma_pow2_adds(23, q);
    let unit = den * pow2(q);
    assert(unit > 0) by (nonlinear_arith)
        requires
            den > 0,
            pow2(q) > 0,
            unit == den * pow2(q),
    ;
    assert(den * (0x100_0000 * pow2(q)) == 0x100_0000 * unit && den * (0x80_0000 * pow2(q))
        == 0x80_0000 * unit) by (nonlinear_arith)
        requires
            unit == den * pow2(q),
    ;
    lemma_nearest_bounds(num, unit, q);
    if q + 23 > k {
        lemma_pow2_strictly_increases(k, q + 23);
        assert(den * pow2(k) < den * pow2(q + 23)) by (nonlinear_arith)
            requires
                den > 0,
                pow2(k) < pow2(q + 23),
        ;
    }
}

/// A quotient of two integers is on the same side of a number, with the significand
/// `s`, as the exact quotient, or is that number.
pub proof fn law_quotient_keeps_side(a: int, b: int, c: F32, s: int, shift: nat, unit: int)
    requires
        0 <= a <= b,
        0 < b <= 0x100_0000,
        c.finite(),
        !c.negative(),
        float::significand(c.mag()) == s,
        float::exponent(c.mag()) + shift == 149,
        unit == pow2(shift),
    ensures
        a * unit >= s * b ==> c.spec_le(
            F32::spec_from_int(a).spec_div(F32::spec_from_int(b)),
        ),
        a * unit <= s * b ==> F32::spec_from_int(a).spec_div(
            F32::spec_from_int(b),
        ).spec_le(c),
{
    reveal(F32::spec_le);
    let x = F32::spec_from_int(a);
    let y = F32::spec_from_int(b);
    let r = x.spec_div(y);
    let p = pow2(149) as int;
    let t = pow2(float::exponent(c.mag())) as int;
    law_small_integer_is_exact(a);
    law_small_integer_is_exact(b);
    lemma_pow2_pos(149);
    lemma_pow2_pos(float::exponent(c.mag()));
    lemma_pow2_adds(float::exponent(c.mag()), shift);
    let n = y.value();
    assert(n > 0) by (nonlinear_arith)
        requires
            n == b * p,
            b > 0,
            p > 0,
    ;
    if y.mag() == 0 {
        float_laws::law_zero_is_zero(y);
    }
    lemma_small_quotient(a, b);
    law_quotient_is_nearest(x, y, c);
    let u = unit;
    assert((a * (t * u)) * p == (a * u) * (t * p)) by (nonlinear_arith);
    assert((s * t) * (b * p) == (s * b) * (t * p)) by (nonlinear_arith);
    let i = a * u;
    let j = s * b;
    assert(i * (t * p) - j * (t * p) == (i - j) * (t * p)) by (nonlinear_arith);
    assert(t * p > 0) by (nonlinear_arith)
        requires
            t > 0,
            p > 0,
    ;
    let d = i - j;
    let w = t * p;
    assert(d >= 0 ==> d * w >= 0) by (nonlinear_arith)
        requires
            w > 0,
    ;
    assert(d <= 0 ==> d * w <= 0) by (nonlinear_arith)
        requires
            w > 0,
    ;
    if r.value() < c.value() {
        assert(r.value() * n < c.value() * n) by (nonlinear_arith)
            requires
                r.value() < c.value(),
                n > 0,
        ;
    }
    if r.value() > c.value() {
        assert(r.value() * n > c.value() * n) by (nonlinear_arith)
            requires
                r.value() > c.value(),
                n > 0,
        ;
    }
}

proof fn lemma_small_quotient(a: int, b: int)
    requires
        0 <= a <= b,
        0 < b <= 0x100_0000,
    ensures
        F32::spec_from_int(a).spec_div(F32::spec_from_int(b)).finite(),
{
    reveal(F32::spec_div);
    let x = F32::spec_from_int(a);
    let y = F32::spec_from_int(b);
    let p = pow2(149);
    law_small_integer_is_exact(a);
    law_small_integer_is_exact(b);
    lemma_pow2_pos(149);
    let m = float::magnitude(x.mag());
    let n = float::magnitude(y.mag());
    assert(n > 0) by (nonlinear_arith)
        requires
            n == b * p,
            b > 0,
            p > 0,
    ;
    assert(m * p <= n * p) by (nonlinear_arith)
        requires
            m == a * p,
            n == b * p,
            a <= b,
            p > 0,
    ;
    if y.mag() == 0 {
        float_laws::law_zero_is_zero(y);
    }
    lemma_not_too_large(m * p, n, 149);
    float_laws::lemma_assemble(false, rounding::round_bits(m * p, n));
}

} // verus!
