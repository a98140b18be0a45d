//! Bounds of sums, products and quotients.

use crate::float;
use crate::float::F32;
use crate::float_laws;
use crate::rounding;
use vstd::arithmetic::power2::*;
use vstd::prelude::*;

verus! {

/// A number whose magnitude is at most `2^k` units of `2^-149`.
pub open spec fn within(x: F32, k: nat) -> bool {
    !x.nan() && float::magnitude(x.mag()) <= pow2(k)
}

/// What the quantum of a quotient is.
proof fn lemma_quantum_is(num: nat, den: nat)
    requires
        den > 0,
    ensures
        num < den * pow2(24 + rounding::quantum(num, den)),
        rounding::quantum(num, den) > 0 ==> num >= den * pow2(
            (23 + rounding::quantum(num, den)) as nat,
        ),
    decreases num - den,
{
    lemma2_to64();
    if num >= den * 0x100_0000 {
        lemma_quantum_is(num, 2 * den);
        let q = rounding::quantum(num, 2 * den);
        let a = pow2(24 + q);
        let b = pow2((23 + q) as nat);
        lemma_pow2_unfold(25 + q);
        lemma_pow2_unfold(24 + q);
        assert((2 * den) * a == den * (2 * a)) by (nonlinear_arith);
        assert((2 * den) * b == den * (2 * b)) by (nonlinear_arith);
        assert(rounding::quantum(num, den) == 1 + q);
    }
}

/// The magnitude of a rounded quotient: the nearest multiple of the quantum.
proof fn lemma_round_value(num: nat, den: nat)
    requires
        den > 0,
        rounding::quantum(num, den) <= 252,
    ensures
        ({
            let q = rounding::quantum(num, den);
            let s = rounding::nearest(num, den * pow2(q));
            &&& rounding::round_bits(num, den) < 0x7f80_0000
            &&& float::magnitude(rounding::round_bits(num, den)) == s * pow2(q)
            &&& s <= 0x100_0000
            &&& q > 0 ==> s >= 0x80_0000
        }),
{
    let q = rounding::quantum(num, den);
    let p = pow2(q);
    let d = den * p;
    let s = rounding::nearest(num, d);
    lemma_quantum_is(num, den);
    lemma2_to64();
    lemma_pow2_pos(q);
    lemma_pow2_adds(24, q);
    lemma_pow2_adds(23, q);
    assert(d > 0) by (nonlinear_arith)
        requires
            d == den * p,
            den > 0,
            p > 0,
    ;
    assert(den * (0x100_0000 * p) == d * 0x100_0000) by (nonlinear_arith)
        requires
            d == den * p,
    ;
    assert(den * (0x80_0000 * p) == d * 0x80_0000) by (nonlinear_arith)
        requires
            d == den * p,
    ;
    let below = num / d;
    assert(below < 0x100_0000) by (nonlinear_arith)
        requires
            below == num / d,
            num < d * 0x100_0000,
            d > 0,
    ;
    if q > 0 {
        assert(below >= 0x80_0000) by (nonlinear_arith)
            requires
                below == num / d,
                num >= d * 0x80_0000,
                d > 0,
        ;
    }
    let bits = q * 0x80_0000 + s;
    assert(bits <= 254 * 0x80_0000);
    assert(bits < 0x7f80_0000);
    if s == 0x100_0000 {
        assert(bits / 0x80_0000 == q + 2 && bits % 0x80_0000 == 0);
        lemma_pow2_unfold(q + 1);
        assert(0x80_0000 * (2 * p) == 0x100_0000 * p) by (nonlinear_arith);
    } else if s >= 0x80_0000 {
        assert(bits / 0x80_0000 == q + 1 && bits % 0x80_0000 == s - 0x80_0000);
    } else {
        assert(bits / 0x80_0000 == 0 && bits % 0x80_0000 == s);
    }
}

/// A quotient that is at most a power of two is rounded to no more.
proof fn lemma_round_within(num: nat, den: nat, k: nat)
    requires
        den > 0,
        num <= den * pow2(k),
        k <= 275,
    ensures
        rounding::round_bits(num, den) < 0x7f80_0000,
        float::magnitude(rounding::round_bits(num, den)) <= pow2(k),
{
    let q = rounding::quantum(num, den);
    lemma_quantum_is(num, den);
    lemma_pow2_pos(k);
    lemma_pow2_pos(q);
    if q > 0 {
        if 23 + q > k {
            lemma_pow2_strictly_increases(k, (23 + q) as nat);
            let (a, b) = (pow2(k), pow2((23 + q) as nat));
            assert(den * a < den * b) by (nonlinear_arith)
                requires
                    a < b,
                    den > 0,
            ;
        }
    }
    assert(q <= 252);
    lemma_round_value(num, den);
    let p = pow2(q);
    let e = (k - q) as nat;
    let t = pow2(e);
    let d = den * p;
    let s = rounding::nearest(num, d);
    lemma_pow2_adds(q, e);
    assert(den * (p * t) == d * t) by (nonlinear_arith)
        requires
            d == den * p,
    ;
    assert(d > 0) by (nonlinear_arith)
        requires
            d == den * p,
            den > 0,
            p > 0,
    ;
    lemma_nearest_at_most(num, d, t);
    assert(s * p <= t * p) by (nonlinear_arith)
        requires
            s <= t,
    ;
    assert(t * p == p * t) by (nonlinear_arith);
}

proof fn lemma_nearest_at_most(num: nat, den: nat, t: nat)
    requires
        den > 0,
        num <= den * t,
    ensures
        rounding::nearest(num, den) <= t,
{
    let below = num / den;
    let rest = num % den;
    vstd::arithmetic::div_mod::lemma_fundamental_div_mod(num as int, den as int);
    assert(below <= t) by (nonlinear_arith)
        requires
            num == den * below + rest,
            num <= den * t,
            rest >= 0,
            den > 0,
    ;
    if below == t {
        assert(rest == 0) by (nonlinear_arith)
            requires
                num == den * below + rest,
                num <= den * t,
                below == t,
                rest >= 0,
        ;
    }
}

proof fn lemma_nearest_at_least(num: nat, den: nat, t: nat)
    requires
        den > 0,
        num >= den * t,
    ensures
        rounding::nearest(num, den) >= t,
{
    let below = num / den;
    let rest = num % den;
    vstd::arithmetic::div_mod::lemma_fundamental_div_mod(num as int, den as int);
    assert(below >= t) by (nonlinear_arith)
        requires
            num == den * below + rest,
            num >= den * t,
            rest < den,
            den > 0,
    ;
}

/// A quotient that is at least a power of two is rounded to no less.
proof fn lemma_round_at_least(num: nat, den: nat, k: nat)
    requires
        den > 0,
        num >= den * pow2(k),
        k <= 275,
    ensures
        float::magnitude(rounding::round_bits(num, den)) >= pow2(k),
{
    let q = rounding::quantum(num, den);
    lemma_quantum_is(num, den);
    lemma_pow2_pos(q);
    lemma2_to64();
    let p = pow2(q);
    if q > 252 {
        // rounded to infinity, or close to it
        lemma_large_round(num, den);
        lemma_pow2_adds(23, q);
        if k < 276 {
            lemma_pow2_strictly_increases(k, 276);
        }
    } else {
        lemma_round_value(num, den);
        let d = den * p;
        let s = rounding::nearest(num, d);
        assert(d > 0) by (nonlinear_arith)
            requires
                d == den * p,
                den > 0,
                p > 0,
        ;
        if k >= q {
            let t = pow2((k - q) as nat);
            lemma_pow2_adds(q, (k - q) as nat);
            assert(den * (p * t) == d * t) by (nonlinear_arith)
                requires
                    d == den * p,
            ;
            lemma_nearest_at_least(num, d, t);
            assert(s * p >= t * p) by (nonlinear_arith)
                requires
                    s >= t,
            ;
            assert(t * p == p * t) by (nonlinear_arith);
        } else {
            lemma_pow2_strictly_increases(k, q);
            assert(s * p >= p) by (nonlinear_arith)
                requires
                    s >= 1,
                    p >= 0,
            ;
        }
    }
}

proof fn lemma_large_round(num: nat, den: nat)
    requires
        den > 0,
        rounding::quantum(num, den) > 252,
    ensures
        float::magnitude(rounding::round_bits(num, den)) >= pow2(276),
{
    let q = rounding::quantum(num, den);
    let p = pow2(q);
    let d = den * p;
    lemma_quantum_is(num, den);
    lemma2_to64();
    lemma_pow2_pos(q);
    lemma_pow2_adds(23, q);
    assert(d > 0) by (nonlinear_arith)
        requires
            d == den * p,
            den > 0,
            p > 0,
    ;
    assert(den * (0x80_0000 * p) == d * 0x80_0000) by (nonlinear_arith)
        requires
            d == den * p,
    ;
    lemma_nearest_at_least(num, d, 0x80_0000);
    let bits = rounding::round_bits(num, den);
    assert(254 * 0x80_0000 <= bits <= 0x7f80_0000);
    // the bits of 2^127
    let edge: nat = 254 * 0x80_0000;
    assert(float::magnitude(edge) == 0x80_0000 * pow2(253));
    lemma_pow2_adds(23, 253);
    if edge < bits {
        float::lemma_magnitude_monotone(edge, bits);
    }
}

/// A number within `2^275` units is finite.
pub proof fn lemma_within_is_finite(x: F32, k: nat)
    requires
        within(x, k),
        k <= 275,
    ensures
        x.finite(),
{
    if x.infinite() {
        lemma2_to64();
        lemma_pow2_adds(23, 254);
        assert(float::magnitude(0x7f80_0000) == 0x80_0000 * pow2(254));
        lemma_pow2_strictly_increases(k, 277);
    }
}

/// Bounds can be widened.
pub proof fn lemma_within_widens(x: F32, j: nat, k: nat)
    requires
        within(x, j),
        j <= k,
    ensures
        within(x, k),
{
    if j < k {
        lemma_pow2_strictly_increases(j, k);
    }
}

/// The sign does not matter for a bound.
pub proof fn lemma_within_negated(x: F32, k: nat)
    requires
        within(x, k),
    ensures
        within(x.spec_neg(), k),
{
    float_laws::lemma_parts(x);
    float_laws::lemma_assemble(!x.negative(), x.mag());
}

proof fn lemma_sum_value(x: F32, y: F32, j: nat, k: nat)
    requires
        within(x, j),
        within(y, j),
        j <= 275,
        k <= 275,
        forall|n: nat|
            n <= float::magnitude(x.mag()) + float::magnitude(y.mag())
                ==> #[trigger] rounding::round_bits(n, 1) < 0x7f80_0000 && float::magnitude(
                rounding::round_bits(n, 1),
            ) <= pow2(k),
    ensures
        within(x.spec_add(y), k),
{
    reveal(F32::spec_add);
    lemma_within_is_finite(x, j);
    lemma_within_is_finite(y, j);
    let sum = x.value() + y.value();
    if sum == 0 {
        float_laws::lemma_assemble(x.negative() && y.negative(), 0);
        float_laws::law_zero_is_zero(x.spec_add(y));
    } else {
        let n = if sum < 0 {
            -sum
        } else {
            sum
        } as nat;
        assert(rounding::round_bits(n, 1) < 0x7f80_0000);
        float_laws::lemma_assemble(sum < 0, rounding::round_bits(n, 1));
    }
}

/// A sum is within twice the bound of its addends.
pub proof fn law_sum_within(x: F32, y: F32, k: nat)
    requires
        within(x, k),
        within(y, k),
        k < 275,
    ensures
        within(x.spec_add(y), k + 1),
{
    lemma_pow2_unfold(k + 1);
    assert forall|n: nat|
        n <= float::magnitude(x.mag()) + float::magnitude(
            y.mag(),
        ) implies #[trigger] rounding::round_bits(n, 1) < 0x7f80_0000 && float::magnitude(
        rounding::round_bits(n, 1),
    ) <= pow2(k + 1) by {
        lemma_round_within(n, 1, k + 1);
    }
    lemma_sum_value(x, y, k, k + 1);
}

/// A number that is much smaller than a bound does not lead over it.
pub proof fn law_small_addend_is_absorbed(x: F32, y: F32, k: nat)
    requires
        within(x, k + 25),
        within(y, k),
        k + 25 < 275,
    ensures
        within(x.spec_add(y), k + 25),
{
    let big = pow2(k + 25);
    let small = pow2(k);
    let unit = pow2(k + 2);
    lemma2_to64();
    lemma_pow2_pos(k);
    lemma_pow2_adds(2, k);
    lemma_pow2_adds(23, k + 2);
    lemma_pow2_adds(24, k + 2);
    lemma_pow2_strictly_increases(k, k + 25);
    assert forall|n: nat|
        n <= float::magnitude(x.mag()) + float::magnitude(
            y.mag(),
        ) implies #[trigger] rounding::round_bits(n, 1) < 0x7f80_0000 && float::magnitude(
        rounding::round_bits(n, 1),
    ) <= big by {
        if n <= big {
            lemma_round_within(n, 1, k + 25);
        } else {
            let rest = (n - big) as nat;
            assert(n < pow2(24 + (k + 2)));
            rounding::lemma_quantum(n, 1, k + 2);
            rounding::lemma_nearest(n, unit, 0x80_0000, rest);
            assert(rounding::nearest(n, 1 * unit) == 0x80_0000);
            lemma_round_value(n, 1);
        }
    }
    lemma_within_widens(y, k, k + 25);
    lemma_sum_value(x, y, k + 25, k + 25);
}

/// The bound of a product is the product of the bounds.
pub proof fn law_product_within(x: F32, y: F32, j: nat, k: nat, t: nat)
    requires
        within(x, j),
        within(y, k),
        j <= 275,
        k <= 275,
        t <= 275,
        j + k == 149 + t,
    ensures
        within(x.spec_mul(y), t),
{
    reveal(F32::spec_mul);
    lemma_within_is_finite(x, j);
    lemma_within_is_finite(y, k);
    let a = float::magnitude(x.mag());
    let b = float::magnitude(y.mag());
    lemma_pow2_adds(j, k);
    lemma_pow2_adds(149, t);
    lemma_pow2_pos(149);
    assert(a * b <= pow2(j) * pow2(k)) by (nonlinear_arith)
        requires
            a <= pow2(j),
            b <= pow2(k),
    ;
    lemma_round_within(a * b, pow2(149), t);
    float_laws::lemma_assemble(
        x.negative() != y.negative(),
        rounding::round_bits(a * b, pow2(149)),
    );
}

/// The bound of a quotient is the bound of the dividend over the least magnitude
/// of the divisor.
pub proof fn law_quotient_within(x: F32, y: F32, j: nat, l: nat, t: nat)
    requires
        within(x, j),
        j <= 275,
        t <= 275,
        j + 149 == l + t,
        !y.nan(),
        float::magnitude(y.mag()) >= pow2(l),
    ensures
        within(x.spec_div(y), t),
{
    reveal(F32::spec_div);
    lemma_within_is_finite(x, j);
    lemma_pow2_pos(l);
    lemma_pow2_pos(t);
    let zero = F32 { bits: 0 };
    float_laws::law_zero_is_zero(zero);
    if y.mag() == 0 {
        float_laws::law_zero_is_zero(y);
    }
    let negative = x.negative() != y.negative();
    if y.infinite() {
        float_laws::lemma_assemble(negative, 0);
    } else {
        let a = float::magnitude(x.mag());
        let b = float::magnitude(y.mag());
        lemma_pow2_adds(j, 149);
        lemma_pow2_adds(l, t);
        assert(a * pow2(149) <= pow2(j) * pow2(149)) by (nonlinear_arith)
            requires
                a <= pow2(j),
        ;
        assert(pow2(l) * pow2(t) <= b * pow2(t)) by (nonlinear_arith)
            requires
                b >= pow2(l),
        ;
        lemma_round_within(a * pow2(149), b, t);
        float_laws::lemma_assemble(negative, rounding::round_bits(a * pow2(149), b));
    }
}

/// A positive integer is at least one.
pub proof fn law_integer_is_at_least_one(n: int)
    requires
        n >= 1,
    ensures
        !F32::spec_from_int(n).nan(),
        float::magnitude(F32::spec_from_int(n).mag()) >= pow2(149),
{
    reveal(F32::spec_from_int);
    let num = n as nat * pow2(149);
    assert(num >= 1 * pow2(149)) by (nonlinear_arith)
        requires
            num == n as nat * pow2(149),
            n >= 1,
    ;
    lemma_round_at_least(num, 1, 149);
    float_laws::lemma_round_bits_bounded(num, 1);
    float_laws::lemma_assemble(false, rounding::round_bits(num, 1));
}

/// The magnitude of a number without fraction bits.
pub proof fn lemma_power_magnitude(x: F32, k: nat)
    requires
        x.bits == (k - 22) * 0x80_0000,
        23 <= k <= 275,
    ensures
        !x.nan(),
        !x.negative(),
        float::magnitude(x.mag()) == pow2(k),
{
    lemma2_to64();
    lemma_pow2_adds(23, (k - 23) as nat);
    assert(x.mag() / 0x80_0000 == k - 22 && x.mag() % 0x80_0000 == 0);
}

} // verus!
