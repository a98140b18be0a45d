//! Laws of binary32 arithmetic.

use crate::float;
use crate::float::F32;
use crate::polygon::LARGEST;
use crate::rounding;
use crate::vec2::MINUS_ONE;
use vstd::arithmetic::power2::*;
use vstd::prelude::*;

verus! {

/// Sign and magnitude bits make up a number.
pub proof fn lemma_assemble(negative: bool, mag: nat)
    requires
        mag < 0x8000_0000,
    ensures
        float::assemble(negative, mag).negative() == negative,
        float::assemble(negative, mag).mag() == mag,
{
}

/// A number is its sign and its magnitude bits.
pub proof fn lemma_parts(x: F32)
    ensures
        x.mag() < 0x8000_0000,
        float::assemble(x.negative(), x.mag()) == x,
{
}

/// Rounding never leads beyond infinity.
pub proof fn lemma_round_bits_bounded(num: nat, den: nat)
    ensures
        rounding::round_bits(num, den) <= 0x7f80_0000,
{
}

/// A magnitude that is a binary32 number is not changed by rounding.
pub proof fn lemma_round_exact(mag: nat, den: nat)
    requires
        mag < 0x7f80_0000,
        den > 0,
    ensures
        rounding::round_bits(float::magnitude(mag) * den, den) == mag,
{
    let s = float::significand(mag);
    let e = float::exponent(mag);
    let p = pow2(e);
    let num = float::magnitude(mag) * den;
    lemma2_to64();
    lemma_pow2_pos(e);
    lemma_pow2_adds(24, e);
    assert(num < den * pow2(24 + e)) by (nonlinear_arith)
        requires
            num == (s * p) * den,
            s < 0x100_0000,
            p > 0,
            den > 0,
            pow2(24 + e) == 0x100_0000 * p,
    ;
    if e > 0 {
        lemma_pow2_adds(23, e);
        assert(num >= den * pow2((23 + e) as nat)) by (nonlinear_arith)
            requires
                num == (s * p) * den,
                s >= 0x80_0000,
                pow2((23 + e) as nat) == 0x80_0000 * p,
        ;
    }
    rounding::lemma_quantum(num, den, e);
    assert(num == s * (den * p) + 0) by (nonlinear_arith)
        requires
            num == (s * p) * den,
    ;
    assert(den * p > 0) by (nonlinear_arith)
        requires
            den > 0,
            p > 0,
    ;
    rounding::lemma_nearest(num, den * p, s, 0);
}

/// The order of addends does not matter.
pub proof fn law_sum_commutes(a: F32, b: F32)
    ensures
        a.spec_add(b) == b.spec_add(a),
{
    reveal(F32::spec_add);
    lemma_parts(a);
    lemma_parts(b);
}

/// The order of factors does not matter.
pub proof fn law_product_commutes(a: F32, b: F32)
    ensures
        a.spec_mul(b) == b.spec_mul(a),
{
    reveal(F32::spec_mul);
    vstd::arithmetic::mul::lemma_mul_is_commutative(
        float::magnitude(a.mag()) as int,
        float::magnitude(b.mag()) as int,
    );
}

/// `<` is transitive.
pub proof fn law_order_is_transitive(a: F32, b: F32, c: F32)
    requires
        a.spec_lt(b),
        b.spec_lt(c),
    ensures
        a.spec_lt(c),
{
    reveal(F32::spec_lt);
}

/// Of two numbers, the first is less, or the second is, or each is at most the
/// other; never more than one of these.
pub proof fn law_order_is_total(a: F32, b: F32)
    requires
        !a.nan(),
        !b.nan(),
    ensures
        a.spec_lt(b) <==> !b.spec_le(a),
        b.spec_lt(a) <==> !a.spec_le(b),
        !(a.spec_lt(b) && b.spec_lt(a)),
{
    reveal(F32::spec_lt);
    reveal(F32::spec_le);
}

/// Negation turns the sign of every number.
pub proof fn law_negation_turns_sign(x: F32)
    ensures
        x.spec_neg().value() == -x.value(),
        x.spec_neg().spec_neg() == x,
{
    lemma_parts(x);
    lemma_assemble(!x.negative(), x.mag());
}

/// The value of zero, with either sign, is zero.
pub proof fn law_zero_is_zero(x: F32)
    requires
        x.mag() == 0,
    ensures
        x.value() == 0,
{
    assert(float::significand(0) * pow2(float::exponent(0)) == 0) by (nonlinear_arith)
        requires
            float::significand(0) == 0,
    ;
}

/// Negating both addends negates a sum that is not zero.
pub proof fn law_negated_sum(a: F32, b: F32)
    requires
        !a.spec_add(b).nan(),
        a.spec_add(b).mag() != 0,
    ensures
        a.spec_neg().spec_add(b.spec_neg()) == a.spec_add(b).spec_neg(),
{
    reveal(F32::spec_add);
    lemma_parts(a);
    lemma_parts(b);
    lemma_assemble(!a.negative(), a.mag());
    lemma_assemble(!b.negative(), b.mag());
    let sum = a.value() + b.value();
    law_negation_turns_sign(a);
    law_negation_turns_sign(b);
    if sum < 0 {
        lemma_round_bits_bounded((-sum) as nat, 1);
        lemma_assemble(true, rounding::round_bits((-sum) as nat, 1));
    } else if sum > 0 {
        lemma_round_bits_bounded(sum as nat, 1);
        lemma_assemble(false, rounding::round_bits(sum as nat, 1));
    } else {
        lemma_assemble(a.negative() && b.negative(), 0);
    }
}

/// Negating a factor negates the product.
pub proof fn law_negated_product(a: F32, b: F32)
    requires
        !a.spec_mul(b).nan(),
    ensures
        a.spec_mul(b.spec_neg()) == a.spec_mul(b).spec_neg(),
{
    reveal(F32::spec_mul);
    lemma_parts(b);
    lemma_assemble(!b.negative(), b.mag());
    let negative = a.negative() != b.negative();
    let product = float::magnitude(a.mag()) * float::magnitude(b.mag());
    lemma_round_bits_bounded(product, pow2(149));
    lemma_assemble(negative, rounding::round_bits(product, pow2(149)));
    lemma_assemble(negative, 0x7f80_0000);
}

/// Only numbers have a product that is a number.
pub proof fn law_product_of_numbers(a: F32, b: F32)
    requires
        !a.spec_mul(b).nan(),
    ensures
        !a.nan(),
        !b.nan(),
{
    reveal(F32::spec_mul);
}

/// Only numbers have a sum that is a number.
pub proof fn law_sum_of_numbers(a: F32, b: F32)
    requires
        !a.spec_add(b).nan(),
    ensures
        !a.nan(),
        !b.nan(),
{
    reveal(F32::spec_add);
}

/// The product with minus one is the negation.
pub proof fn law_times_minus_one(x: F32)
    requires
        !x.nan(),
    ensures
        x.spec_mul(F32 { bits: MINUS_ONE }) == x.spec_neg(),
{
    reveal(F32::spec_mul);
    let m = F32 { bits: MINUS_ONE };
    lemma_parts(x);
    assert(m.negative() && m.mag() == 0x3f80_0000);
    lemma2_to64();
    lemma_pow2_adds(23, 126);
    lemma_pow2_pos(149);
    assert(float::significand(0x3f80_0000) == 0x80_0000 && float::exponent(0x3f80_0000) == 126);
    assert(float::magnitude(m.mag()) == pow2(149));
    if x.finite() {
        lemma_round_exact(x.mag(), pow2(149));
    }
}

/// Zero times zero, and zero plus zero, is zero.
pub proof fn law_zero_sums(x: F32)
    requires
        x.bits == 0,
    ensures
        x.spec_mul(x) == x,
        x.spec_add(x) == x,
{
    reveal(F32::spec_mul);
    reveal(F32::spec_add);
    law_zero_is_zero(x);
    lemma_pow2_pos(149);
    lemma_round_exact(0, pow2(149));
    assert(float::magnitude(0) * pow2(149) == 0) by (nonlinear_arith)
        requires
            float::magnitude(0) == 0,
    ;
    assert(float::magnitude(0) * float::magnitude(0) == 0) by (nonlinear_arith)
        requires
            float::magnitude(0) == 0,
    ;
}

/// A number without the sign bit is not negative.
pub proof fn law_not_negative(x: F32)
    requires
        !x.negative(),
    ensures
        x.value() >= 0,
{
}

/// The square of a number is not negative.
pub proof fn law_square_is_not_negative(x: F32)
    requires
        !x.nan(),
    ensures
        !x.spec_mul(x).nan(),
        !x.spec_mul(x).negative(),
{
    reveal(F32::spec_mul);
    let square = float::magnitude(x.mag()) * float::magnitude(x.mag());
    lemma_round_bits_bounded(square, pow2(149));
    lemma_assemble(false, rounding::round_bits(square, pow2(149)));
}

/// Taking zero from a number leaves it as it is.
pub proof fn law_minus_zero(x: F32)
    requires
        !x.nan(),
    ensures
        x.spec_sub(F32 { bits: 0 }) == x,
{
    reveal(F32::spec_add);
    let zero = F32 { bits: 0 };
    lemma_parts(x);
    law_zero_is_zero(zero);
    law_negation_turns_sign(zero);
    lemma_assemble(true, 0);
    if x.finite() {
        lemma_round_exact(x.mag(), 1);
        lemma_pow2_pos(float::exponent(x.mag()));
        if x.value() == 0 {
            assert(float::significand(x.mag()) == 0) by (nonlinear_arith)
                requires
                    float::significand(x.mag()) * pow2(float::exponent(x.mag())) == 0,
                    pow2(float::exponent(x.mag())) > 0,
            ;
        }
    }
}

/// What is not zero is not rounded to zero.
proof fn lemma_round_not_zero(num: nat)
    requires
        num > 0,
    ensures
        rounding::round_bits(num, 1) > 0,
{
    let k = rounding::quantum(num, 1);
    if k == 0 {
        lemma2_to64();
        assert(num % 1 == 0 && num / 1 == num);
    }
}

/// A magnitude is zero for the bits of zero only.
proof fn lemma_magnitude_positive(mag: nat)
    requires
        mag > 0,
    ensures
        float::magnitude(mag) > 0,
{
    let s = float::significand(mag);
    let p = pow2(float::exponent(mag));
    lemma_pow2_pos(float::exponent(mag));
    assert(s * p > 0) by (nonlinear_arith)
        requires
            s > 0,
            p > 0,
    ;
}

/// What is left of a number that is taken from a larger one is more than zero.
pub proof fn law_difference_is_positive(a: F32, b: F32)
    requires
        b.spec_lt(a),
    ensures
        (F32 { bits: 0 }).spec_lt(a.spec_sub(b)),
{
    reveal(F32::spec_lt);
    reveal(F32::spec_add);
    law_zero_is_zero(F32 { bits: 0 });
    lemma_parts(b);
    lemma_assemble(!b.negative(), b.mag());
    law_negation_turns_sign(b);
    if a.infinite() || b.infinite() {
        lemma_magnitude_positive(0x7f80_0000);
        if a.mag() < 0x7f80_0000 {
            float::lemma_magnitude_monotone(a.mag(), 0x7f80_0000);
        }
        if b.mag() < 0x7f80_0000 {
            float::lemma_magnitude_monotone(b.mag(), 0x7f80_0000);
        }
    } else {
        let sum = a.value() - b.value();
        lemma_round_bits_bounded(sum as nat, 1);
        lemma_round_not_zero(sum as nat);
        lemma_assemble(false, rounding::round_bits(sum as nat, 1));
        lemma_magnitude_positive(rounding::round_bits(sum as nat, 1));
    }
}

/// The largest number is more than zero.
pub proof fn law_largest_is_positive()
    ensures
        (F32 { bits: LARGEST }).value() > 0,
{
    lemma_magnitude_positive(LARGEST as nat);
}

} // verus!
