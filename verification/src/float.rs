//! Binary32 arithmetic on bit patterns.
//!
//! [`F32`] holds the 32 bits of an IEEE 754 single precision number, and every
//! operation is computed with integers, rounding to nearest, ties to even. The
//! results are therefore the same on every machine. A result that is not a
//! number always has the bits [`NAN_BITS`].

use crate::rounding;
use vstd::arithmetic::power2::*;
use vstd::prelude::*;

verus! {

/// The bits of the one NaN that operations return.
pub const NAN_BITS: u32 = 0x7fc0_0000;

/// A binary32 number, as its bit pattern.
#[derive(Clone, Copy, Debug)]
pub struct F32 {
    pub bits: u32,
}

/// The significand of a magnitude: 24 bits, or fewer for a subnormal one.
pub open spec fn significand(mag: nat) -> nat {
    if mag / 0x80_0000 == 0 {
        mag % 0x80_0000
    } else {
        0x80_0000 + mag % 0x80_0000
    }
}

/// The power of two that the significand of a magnitude is multiplied with, in
/// units of `2^-149`.
pub open spec fn exponent(mag: nat) -> nat {
    if mag / 0x80_0000 == 0 {
        0
    } else {
        (mag / 0x80_0000 - 1) as nat
    }
}

/// The magnitude that magnitude bits stand for, in units of `2^-149`. The bits
/// of infinity stand for one unit in the last place beyond the largest number.
pub open spec fn magnitude(mag: nat) -> nat {
    significand(mag) * pow2(exponent(mag))
}

/// The number with the given sign and magnitude bits.
pub open spec fn assemble(negative: bool, mag: nat) -> F32 {
    F32 {
        bits: (if negative {
            0x8000_0000 + mag
        } else {
            mag
        }) as u32,
    }
}

pub open spec fn nan() -> F32 {
    F32 { bits: NAN_BITS }
}

impl F32 {
    /// The sign bit.
    pub open spec fn negative(self) -> bool {
        self.bits >= 0x8000_0000
    }

    /// The bits without the sign bit.
    pub open spec fn mag(self) -> nat {
        (self.bits % 0x8000_0000) as nat
    }

    pub open spec fn nan(self) -> bool {
        self.mag() > 0x7f80_0000
    }

    pub open spec fn infinite(self) -> bool {
        self.mag() == 0x7f80_0000
    }

    pub open spec fn finite(self) -> bool {
        self.mag() < 0x7f80_0000
    }

    /// The number in units of `2^-149`; see [`magnitude`] for infinities.
    pub open spec fn value(self) -> int {
        if self.negative() {
            -(magnitude(self.mag()) as int)
        } else {
            magnitude(self.mag()) as int
        }
    }

    /// The same magnitude with the other sign.
    pub open spec fn spec_neg(self) -> F32 {
        assemble(!self.negative(), self.mag())
    }

    /// The same magnitude, not negative.
    pub open spec fn spec_abs(self) -> F32 {
        assemble(false, self.mag())
    }

    /// The rounded sum. A sum of zero is positive unless both operands are
    /// negative zeros.
    #[verifier::opaque]
    pub open spec fn spec_add(self, other: F32) -> F32 {
        if self.nan() || other.nan() || (self.infinite() && other.infinite() && self.negative()
            != other.negative()) {
            nan()
        } else if self.infinite() {
            self
        } else if other.infinite() {
            other
        } else {
            let sum = self.value() + other.value();
            if sum == 0 {
                assemble(self.negative() && other.negative(), 0)
            } else if sum < 0 {
                assemble(true, rounding::round_bits((-sum) as nat, 1))
            } else {
                assemble(false, rounding::round_bits(sum as nat, 1))
            }
        }
    }

    /// The rounded difference.
    pub open spec fn spec_sub(self, other: F32) -> F32 {
        self.spec_add(other.spec_neg())
    }

    /// The rounded product.
    #[verifier::opaque]
    pub open spec fn spec_mul(self, other: F32) -> F32 {
        let negative = self.negative() != other.negative();
        if self.nan() || other.nan() || (self.infinite() && other.mag() == 0) || (other.infinite()
            && self.mag() == 0) {
            nan()
        } else if self.infinite() || other.infinite() {
            assemble(negative, 0x7f80_0000)
        } else {
            assemble(
                negative,
                rounding::round_bits(
                    magnitude(self.mag()) * magnitude(other.mag()),
                    pow2(149),
                ),
            )
        }
    }

    /// The rounded quotient.
    #[verifier::opaque]
    pub open spec fn spec_div(self, other: F32) -> F32 {
        let negative = self.negative() != other.negative();
        if self.nan() || other.nan() || (self.infinite() && other.infinite()) || (self.mag() == 0
            && other.mag() == 0) {
            nan()
        } else if self.infinite() || other.mag() == 0 {
            assemble(negative, 0x7f80_0000)
        } else if other.infinite() {
            assemble(negative, 0)
        } else {
            assemble(
                negative,
                rounding::round_bits(magnitude(self.mag()) * pow2(149), magnitude(other.mag())),
            )
        }
    }

    /// The rounded square root.
    #[verifier::opaque]
    pub open spec fn spec_sqrt(self) -> F32 {
        if self.nan() || (self.negative() && self.mag() != 0) {
            nan()
        } else if self.infinite() || self.mag() == 0 {
            self
        } else {
            assemble(false, rounding::round_root_bits(magnitude(self.mag()) * pow2(149)))
        }
    }

    /// `self < other`; false if either is not a number.
    #[verifier::opaque]
    pub open spec fn spec_lt(self, other: F32) -> bool {
        !self.nan() && !other.nan() && self.value() < other.value()
    }

    /// `self <= other`; false if either is not a number.
    #[verifier::opaque]
    pub open spec fn spec_le(self, other: F32) -> bool {
        !self.nan() && !other.nan() && self.value() <= other.value()
    }

    /// The smaller of two numbers; if one is not a number, the other.
    pub open spec fn spec_min(self, other: F32) -> F32 {
        if self.nan() {
            other
        } else if other.nan() || self.spec_lt(other) {
            self
        } else {
            other
        }
    }

    /// The nearest number to an integer.
    #[verifier::opaque]
    pub open spec fn spec_from_int(n: int) -> F32 {
        if n < 0 {
            assemble(true, rounding::round_bits((-n) as nat * pow2(149), 1))
        } else {
            assemble(false, rounding::round_bits(n as nat * pow2(149), 1))
        }
    }
}

proof fn lemma_leading_zeros(m: u64)
    ensures
        0 <= vstd::std_specs::bits::u64_leading_zeros(m) <= 64,
        m < pow2((64 - vstd::std_specs::bits::u64_leading_zeros(m)) as nat),
        m > 0 ==> vstd::std_specs::bits::u64_leading_zeros(m) < 64 && m >= pow2(
            (63 - vstd::std_specs::bits::u64_leading_zeros(m)) as nat,
        ),
        m == 0 ==> vstd::std_specs::bits::u64_leading_zeros(m) == 64,
    decreases m,
{
    reveal(vstd::std_specs::bits::u64_leading_zeros);
    lemma2_to64();
    lemma2_to64_rest();
    if m > 0 {
        lemma_leading_zeros(m / 2);
        let len = (65 - vstd::std_specs::bits::u64_leading_zeros(m / 2)) as nat;
        lemma_pow2_unfold(len);
        if m / 2 > 0 {
            lemma_pow2_unfold((len - 1) as nat);
        }
        if len > 64 {
            assert(len == 65);
            assert(m / 2 >= pow2(63));
        }
    }
}

/// The number of bits that `m` needs.
fn bit_length(m: u64) -> (len: u32)
    requires
        m < 0x4000_0000_0000_0000,
    ensures
        len <= 62,
        m < pow2(len as nat),
        len > 0 ==> m >= pow2((len - 1) as nat),
        len == 0 <==> m == 0,
{
    let zeros = m.leading_zeros();
    proof {
        lemma_leading_zeros(m);
        lemma2_to64();
        lemma2_to64_rest();
        let len = (64 - zeros) as nat;
        if len > 62 {
            if len > 63 {
                lemma_pow2_strictly_increases(62, (len - 1) as nat);
            }
            assert(m >= 0x4000_0000_0000_0000);
        }
    }
    64 - zeros
}

/// Rounds `num / den`, given as `m` (and something more if `sticky`) times
/// `2^e`, to the number with that magnitude and the given sign.
fn round_scaled(
    negative: bool,
    m: u64,
    e: i32,
    sticky: bool,
    Ghost(num): Ghost<nat>,
    Ghost(den): Ghost<nat>,
) -> (r: F32)
    requires
        den > 0,
        m < 0x4000_0000_0000_0000,
        -600 <= e <= 600,
        sticky ==> e < 0 || m >= 0x100_0000,
        rounding::scaled(m as nat, e as int, sticky, num, den),
    ensures
        r == assemble(negative, rounding::round_bits(num, den)),
{
    if m == 0 && !sticky {
        proof {
            lemma_pow2_pos(if -e >= 0 {
                (-e) as nat
            } else {
                0
            });
            let dn = rounding::up(-e);
            assert(num == 0) by (nonlinear_arith)
                requires
                    num * dn == 0 * (den * rounding::up(e as int)),
                    dn > 0,
            ;
            lemma2_to64();
            rounding::lemma_nearest(0, den * pow2(0), 0, 0);
        }
        return make(negative, 0);
    }
    let len = bit_length(m) as i32;
    let k: i32 = if len + e > 24 {
        len + e - 24
    } else {
        0
    };
    let sh: i32 = k - e;
    proof {
        if k > 0 && len == 0 {
            assert(sticky && e < 0);
        }
        rounding::lemma_scaled(m as nat, e as int, sticky, num, den, len as nat, k as nat);
    }
    let s: u64 = if sh <= 0 {
        assert(!sticky) by {
            if sticky {
                lemma2_to64();
                if len <= 24 {
                    if len < 24 {
                        lemma_pow2_strictly_increases(len as nat, 24);
                    }
                }
                assert(len > 24);
            }
        }
        let up = (-sh) as u64;
        proof {
            lemma_significand_fits(m as nat, len as nat, up as nat);
            lemma2_to64();
            lemma2_to64_rest();
            vstd::bits::lemma_u64_shl_is_mul(m, up);
        }
        m << up
    } else if sh >= 63 {
        proof {
            lemma2_to64_rest();
            if sh > 63 {
                lemma_pow2_strictly_increases(63, sh as nat);
            }
            assert(pow2(sh as nat) >= pow2(63));
            assert(m as nat == 0 * pow2(sh as nat) + m as nat);
            rounding::lemma_scaled_drop(
                m as nat,
                e as int,
                sticky,
                num,
                den,
                k as nat,
                sh as nat,
                0,
                m as nat,
            );
        }
        0
    } else {
        let base = m >> (sh as u64);
        proof {
            lemma2_to64();
            lemma2_to64_rest();
            vstd::bits::lemma_u64_shr_is_div(m, sh as u64);
            lemma_pow2_pos(sh as nat);
            vstd::arithmetic::div_mod::lemma_fundamental_div_mod(m as int, pow2(sh as nat) as int);
            vstd::arithmetic::div_mod::lemma_mod_bound(m as int, pow2(sh as nat) as int);
            assert(base as nat * pow2(sh as nat) == pow2(sh as nat) * base as nat)
                by (nonlinear_arith);
            lemma_pow2_unfold(sh as nat);
            if sh < 62 {
                lemma_pow2_strictly_increases(sh as nat, 62);
            }
            vstd::bits::lemma_u64_shl_is_mul(1, sh as u64);
            assert(0 <= m as int % pow2(sh as nat) as int);
            lemma_kept_bits_fit(m as nat, len as nat, sh as nat, base as nat);
        }
        let unit: u64 = 1u64 << (sh as u64);
        let rem: u64 = m % unit;
        proof {
            rounding::lemma_scaled_drop(
                m as nat,
                e as int,
                sticky,
                num,
                den,
                k as nat,
                sh as nat,
                base as nat,
                rem as nat,
            );
        }
        if rem > unit / 2 || (rem == unit / 2 && (sticky || base % 2 == 1)) {
            base + 1
        } else {
            base
        }
    };
    let bits: u64 = (k as u64) * 0x80_0000 + s;
    if bits < 0x7f80_0000 {
        make(negative, bits as u32)
    } else {
        make(negative, 0x7f80_0000)
    }
}

/// The number with the given sign and magnitude bits.
fn make(negative: bool, mag: u32) -> (r: F32)
    requires
        mag < 0x8000_0000,
    ensures
        r == assemble(negative, mag as nat),
{
    if negative {
        F32 { bits: 0x8000_0000 + mag }
    } else {
        F32 { bits: mag }
    }
}

proof fn lemma_significand_fits(m: nat, len: nat, up: nat)
    requires
        m < pow2(len),
        len + up <= 24,
    ensures
        m * pow2(up) < 0x100_0000,
{
    lemma2_to64();
    lemma_pow2_adds(len, up);
    lemma_pow2_pos(up);
    if len + up < 24 {
        lemma_pow2_strictly_increases(len + up, 24);
    }
    assert(m * pow2(up) < pow2(len) * pow2(up)) by (nonlinear_arith)
        requires
            m < pow2(len),
            pow2(up) > 0,
    ;
}

proof fn lemma_kept_bits_fit(m: nat, len: nat, sh: nat, base: nat)
    requires
        m < pow2(len),
        len <= 24 + sh,
        base == m / pow2(sh),
    ensures
        base < 0x100_0000,
{
    lemma2_to64();
    lemma_pow2_pos(sh);
    lemma_pow2_adds(24, sh);
    if len < 24 + sh {
        lemma_pow2_strictly_increases(len, 24 + sh);
    }
    vstd::arithmetic::div_mod::lemma_fundamental_div_mod(m as int, pow2(sh) as int);
    let p = pow2(sh) as int;
    let r = m as int % p;
    assert(base < 0x100_0000) by (nonlinear_arith)
        requires
            m as int == p * base + r,
            r >= 0,
            p > 0,
            m < 0x100_0000 * p,
    ;
}

/// The significand and the exponent of a magnitude.
fn parts(mag: u32) -> (r: (u64, i32))
    requires
        mag < 0x7f80_0000,
    ensures
        r.0 == significand(mag as nat),
        r.1 == exponent(mag as nat),
        r.0 < 0x100_0000,
        0 <= r.1 <= 253,
        r.1 > 0 ==> r.0 >= 0x80_0000,
        mag > 0 ==> r.0 > 0,
        mag == 0 ==> r.0 == 0,
{
    let field: u32 = mag / 0x80_0000;
    let fraction: u32 = mag % 0x80_0000;
    if field == 0 {
        (fraction as u64, 0)
    } else {
        ((0x80_0000 + fraction) as u64, field as i32 - 1)
    }
}

/// Shifts a positive significand up to exactly 24 bits; returns the shift too.
fn normalized(m: u64) -> (r: (u64, i32))
    requires
        0 < m < 0x100_0000,
    ensures
        0 <= r.1 <= 23,
        r.0 == m * pow2(r.1 as nat),
        0x80_0000 <= r.0 < 0x100_0000,
{
    let len = bit_length(m);
    proof {
        lemma2_to64();
        lemma2_to64_rest();
        if len > 24 {
            if len > 25 {
                lemma_pow2_strictly_increases(24, (len - 1) as nat);
            }
            assert(false);
        }
        let t = (24 - len) as nat;
        lemma_pow2_adds(len as nat, t);
        lemma_pow2_adds((len - 1) as nat, t);
        lemma_pow2_pos(t);
        assert(m * pow2(t) < pow2(len as nat) * pow2(t)) by (nonlinear_arith)
            requires
                m < pow2(len as nat),
                pow2(t) > 0,
        ;
        assert(m * pow2(t) >= pow2((len - 1) as nat) * pow2(t)) by (nonlinear_arith)
            requires
                m >= pow2((len - 1) as nat),
        ;
        vstd::bits::lemma_u64_shl_is_mul(m, t as u64);
    }
    (m << ((24 - len) as u64), (24 - len) as i32)
}

/// The integer square root.
fn integer_root(m: u64) -> (r: u64)
    requires
        m < 0x4_0000_0000_0000,
    ensures
        r * r <= m < (r + 1) * (r + 1),
        r < 0x200_0000,
{
    let mut r: u64 = 0;
    let mut bit: u64 = 0x200_0000;
    proof {
        lemma2_to64();
        assert(bit == pow2(25));
    }
    while bit > 1
        invariant
            m < 0x4_0000_0000_0000,
            r * r <= m < (r + bit) * (r + bit),
            r + bit <= 0x200_0000,
            bit >= 1,
            bit % 2 == 0 || bit == 1,
            exists|i: nat| i <= 25 && bit == #[trigger] pow2(i),
        decreases bit,
    {
        let ghost i = choose|i: nat| i <= 25 && bit == #[trigger] pow2(i);
        proof {
            lemma2_to64();
            if i > 0 {
                lemma_pow2_unfold(i);
                if i > 1 {
                    lemma_pow2_unfold((i - 1) as nat);
                }
            }
            assert(bit / 2 == pow2((i - 1) as nat));
        }
        bit = bit / 2;
        let c = r + bit;
        assert(c * c <= 0x200_0000 * 0x200_0000) by (nonlinear_arith)
            requires
                0 <= c <= 0x200_0000,
        ;
        if c * c <= m {
            r = c;
        }
    }
    r
}

/// Larger magnitude bits stand for a larger magnitude.
pub proof fn lemma_magnitude_monotone(a: nat, b: nat)
    requires
        a < b <= 0x7f80_0000,
    ensures
        magnitude(a) < magnitude(b),
{
    let fa = a / 0x80_0000;
    let fb = b / 0x80_0000;
    let ea = exponent(a);
    let eb = exponent(b);
    lemma2_to64();
    lemma_pow2_pos(ea);
    lemma_pow2_pos(eb);
    let pa = pow2(ea);
    let pb = pow2(eb);
    let sa = significand(a);
    let sb = significand(b);
    if fa == fb {
        assert(sa * pa < sb * pa) by (nonlinear_arith)
            requires
                sa < sb,
                pa > 0,
        ;
    } else if fa == 0 {
        assert(sa * 1 < sb * pb) by (nonlinear_arith)
            requires
                sa < 0x80_0000 <= sb,
                pb >= 1,
        ;
    } else {
        lemma_pow2_unfold(ea + 1);
        if ea + 1 < eb {
            lemma_pow2_strictly_increases(ea + 1, eb);
        }
        assert(sa * pa < sb * pb) by (nonlinear_arith)
            requires
                sa < 0x100_0000,
                sb >= 0x80_0000,
                pb >= 2 * pa,
                pa > 0,
        ;
    }
}

proof fn lemma_magnitude_zero(a: nat)
    requires
        a <= 0x7f80_0000,
    ensures
        magnitude(0) == 0,
        magnitude(a) == 0 <==> a == 0,
{
    lemma2_to64();
    assert(significand(0) == 0);
    assert(exponent(0) == 0);
    assert(magnitude(0) == 0 * pow2(0));
    if a > 0 {
        lemma_magnitude_monotone(0, a);
    }
}

/// A signed magnitude.
spec fn signed(negative: bool, mag: nat) -> int {
    if negative {
        -(magnitude(mag) as int)
    } else {
        magnitude(mag) as int
    }
}

/// The rounded sum of two finite numbers, the larger magnitude first.
fn add_finite(sa: bool, a: u32, sb: bool, b: u32) -> (r: F32)
    requires
        b <= a < 0x7f80_0000,
    ensures
        ({
            let sum = signed(sa, a as nat) + signed(sb, b as nat);
            r == if sum == 0 {
                assemble(sa && sb, 0)
            } else if sum < 0 {
                assemble(true, rounding::round_bits((-sum) as nat, 1))
            } else {
                assemble(false, rounding::round_bits(sum as nat, 1))
            }
        }),
{
    proof {
        lemma_magnitude_zero(a as nat);
        lemma_magnitude_zero(b as nat);
        if b < a {
            lemma_magnitude_monotone(b as nat, a as nat);
        }
    }
    if a == b && sa != sb {
        return make(false, 0);
    }
    if a == 0 {
        return make(sa, 0);
    }
    let (ma, ea) = parts(a);
    let (mb, eb) = parts(b);
    proof {
        if ea < eb {
            assert(b as nat / 0x80_0000 > a as nat / 0x80_0000);
        }
    }
    let d: i32 = ea - eb;
    let ghost big = magnitude(a as nat);
    let ghost small = magnitude(b as nat);
    let ghost num: nat = if sa == sb {
        big + small
    } else {
        (big - small) as nat
    };
    if d <= 36 {
        proof {
            lemma2_to64();
            lemma2_to64_rest();
            if d < 36 {
                lemma_pow2_strictly_increases(d as nat, 36);
            }
            lemma_pow2_pos(d as nat);
            assert(ma * pow2(d as nat) < 0x100_0000 * 0x10_0000_0000) by (nonlinear_arith)
                requires
                    ma < 0x100_0000,
                    0 < pow2(d as nat) <= 0x10_0000_0000,
            ;
            vstd::bits::lemma_u64_shl_is_mul(ma, d as u64);
        }
        let wide: u64 = ma << (d as u64);
        proof {
            let p = pow2(eb as nat);
            lemma_pow2_adds(d as nat, eb as nat);
            lemma_pow2_pos(eb as nat);
            assert(big == wide as nat * p) by (nonlinear_arith)
                requires
                    big == ma as nat * pow2(ea as nat),
                    pow2(ea as nat) == pow2(d as nat) * p,
                    wide as nat == ma as nat * pow2(d as nat),
            ;
            assert(wide >= mb) by (nonlinear_arith)
                requires
                    wide as nat * p >= mb as nat * p,
                    p > 0,
            ;
            assert((wide + mb) as nat * p == wide as nat * p + mb as nat * p) by (nonlinear_arith);
            assert((wide - mb) as nat * p == wide as nat * p - mb as nat * p) by (nonlinear_arith)
                requires
                    wide >= mb,
            ;
        }
        let m: u64 = if sa == sb {
            wide + mb
        } else {
            wide - mb
        };
        proof {
            rounding::lemma_scaled_exact(m as nat, eb as nat, 0);
        }
        round_scaled(sa, m, eb, false, Ghost(num), Ghost(1))
    } else if mb == 0 {
        proof {
            assert(small == 0) by (nonlinear_arith)
                requires
                    small == 0 * pow2(eb as nat),
            ;
            lemma2_to64();
            rounding::lemma_scaled_exact(ma as nat, ea as nat, 0);
        }
        round_scaled(sa, ma, ea, false, Ghost(num), Ghost(1))
    } else {
        let m: u64 = if sa == sb {
            ma * 4
        } else {
            ma * 4 - 1
        };
        proof {
            // the smaller one is less than a quarter of the last place of the larger one
            let e = (ea - 2) as nat;
            let p = pow2(e);
            lemma2_to64();
            lemma_pow2_adds(e, 2);
            lemma_pow2_adds(24, eb as nat);
            lemma_pow2_strictly_increases(24 + eb as nat, e);
            lemma_pow2_pos(eb as nat);
            assert(0 < small < p) by (nonlinear_arith)
                requires
                    small == mb as nat * pow2(eb as nat),
                    0 < mb < 0x100_0000,
                    0x100_0000 * pow2(eb as nat) < p,
                    pow2(eb as nat) > 0,
            ;
            assert(big == (ma * 4) as nat * p) by (nonlinear_arith)
                requires
                    big == ma as nat * pow2(ea as nat),
                    pow2(ea as nat) == p * 4,
            ;
            assert(((ma * 4) as nat + 1) * p == (ma * 4) as nat * p + p) by (nonlinear_arith);
            assert(((ma * 4) as nat - 1) * p == (ma * 4) as nat * p - p) by (nonlinear_arith);
            assert(num * 1 == num);
            assert(1 * p == p);
        }
        round_scaled(sa, m, ea - 2, true, Ghost(num), Ghost(1))
    }
}

impl F32 {
    /// The number with the given bits.
    pub fn from_bits(bits: u32) -> (r: F32)
        ensures
            r == (F32 { bits }),
    {
        F32 { bits }
    }

    /// The bits of the number.
    pub fn to_bits(self) -> (r: u32)
        ensures
            r == self.bits,
    {
        self.bits
    }

    pub fn zero() -> (r: F32)
        ensures
            r == (F32 { bits: 0 }),
    {
        F32 { bits: 0 }
    }

    pub fn is_nan(self) -> (r: bool)
        ensures
            r == self.nan(),
    {
        self.bits % 0x8000_0000 > 0x7f80_0000
    }

    /// The same magnitude with the other sign.
    pub fn neg(self) -> (r: F32)
        ensures
            r == self.spec_neg(),
    {
        make(self.bits < 0x8000_0000, self.bits % 0x8000_0000)
    }

    /// The same magnitude, not negative.
    pub fn abs(self) -> (r: F32)
        ensures
            r == self.spec_abs(),
    {
        make(false, self.bits % 0x8000_0000)
    }

    /// The rounded sum.
    pub fn add(self, other: F32) -> (r: F32)
        ensures
            r == self.spec_add(other),
    {
        reveal(F32::spec_add);
        let a: u32 = self.bits % 0x8000_0000;
        let b: u32 = other.bits % 0x8000_0000;
        let sa = self.bits >= 0x8000_0000;
        let sb = other.bits >= 0x8000_0000;
        if a > 0x7f80_0000 || b > 0x7f80_0000 || (a == 0x7f80_0000 && b == 0x7f80_0000 && sa
            != sb) {
            return F32 { bits: NAN_BITS };
        }
        if a == 0x7f80_0000 {
            return self;
        }
        if b == 0x7f80_0000 {
            return other;
        }
        if a >= b {
            add_finite(sa, a, sb, b)
        } else {
            add_finite(sb, b, sa, a)
        }
    }

    /// The rounded difference.
    pub fn sub(self, other: F32) -> (r: F32)
        ensures
            r == self.spec_sub(other),
    {
        self.add(other.neg())
    }

    /// The rounded product.
    pub fn mul(self, other: F32) -> (r: F32)
        ensures
            r == self.spec_mul(other),
    {
        reveal(F32::spec_mul);
        let a: u32 = self.bits % 0x8000_0000;
        let b: u32 = other.bits % 0x8000_0000;
        let negative = (self.bits >= 0x8000_0000) != (other.bits >= 0x8000_0000);
        if a > 0x7f80_0000 || b > 0x7f80_0000 || (a == 0x7f80_0000 && b == 0) || (b == 0x7f80_0000
            && a == 0) {
            return F32 { bits: NAN_BITS };
        }
        if a == 0x7f80_0000 || b == 0x7f80_0000 {
            return make(negative, 0x7f80_0000);
        }
        let (ma, ea) = parts(a);
        let (mb, eb) = parts(b);
        assert(ma * mb < 0x1_0000_0000_0000) by (nonlinear_arith)
            requires
                ma < 0x100_0000,
                mb < 0x100_0000,
        ;
        let ghost num = magnitude(a as nat) * magnitude(b as nat);
        proof {
            let x = (ea + eb) as nat;
            lemma_pow2_adds(ea as nat, eb as nat);
            assert(num == (ma * mb) as nat * pow2(x)) by (nonlinear_arith)
                requires
                    num == (ma as nat * pow2(ea as nat)) * (mb as nat * pow2(eb as nat)),
                    pow2(x) == pow2(ea as nat) * pow2(eb as nat),
            ;
            rounding::lemma_scaled_exact((ma * mb) as nat, x, 149);
        }
        round_scaled(negative, ma * mb, ea + eb - 149, false, Ghost(num), Ghost(pow2(149)))
    }

    /// The rounded quotient.
    pub fn div(self, other: F32) -> (r: F32)
        ensures
            r == self.spec_div(other),
    {
        reveal(F32::spec_div);
        let a: u32 = self.bits % 0x8000_0000;
        let b: u32 = other.bits % 0x8000_0000;
        let negative = (self.bits >= 0x8000_0000) != (other.bits >= 0x8000_0000);
        if a > 0x7f80_0000 || b > 0x7f80_0000 || (a == 0x7f80_0000 && b == 0x7f80_0000) || (a == 0
            && b == 0) {
            return F32 { bits: NAN_BITS };
        }
        if a == 0x7f80_0000 || b == 0 {
            return make(negative, 0x7f80_0000);
        }
        if b == 0x7f80_0000 {
            return make(negative, 0);
        }
        let ghost num = magnitude(a as nat) * pow2(149);
        let ghost den = magnitude(b as nat);
        proof {
            lemma_magnitude_zero(a as nat);
            lemma_magnitude_zero(b as nat);
            lemma_pow2_pos(149);
        }
        if a == 0 {
            proof {
                lemma2_to64();
                assert(num == 0) by (nonlinear_arith)
                    requires
                        num == 0 * pow2(149),
                ;
                assert(den * pow2(0) == den) by (nonlinear_arith)
                    requires
                        pow2(0) == 1,
                ;
                rounding::lemma_nearest(0, den * pow2(0), 0, 0);
            }
            return make(negative, 0);
        }
        let (ma, ea) = parts(a);
        let (mb, eb) = parts(b);
        let (na, ta) = normalized(ma);
        let (nb, tb) = normalized(mb);
        proof {
            lemma2_to64();
            lemma2_to64_rest();
            vstd::bits::lemma_u64_shl_is_mul(na, 38);
        }
        let top: u64 = na << 38u64;
        let q: u64 = top / nb;
        let rem: u64 = top % nb;
        let e: i32 = ea - ta - eb + tb + 111;
        proof {
            vstd::arithmetic::div_mod::lemma_fundamental_div_mod(top as int, nb as int);
            assert(top == q * nb + rem) by (nonlinear_arith)
                requires
                    top as int == nb as int * q as int + rem as int,
            ;
            assert(q >= 0x100_0000) by (nonlinear_arith)
                requires
                    top == q * nb + rem,
                    rem < nb,
                    nb < 0x100_0000,
                    top >= 0x80_0000 * 0x40_0000_0000,
            ;
            assert(q <= top) by (nonlinear_arith)
                requires
                    top == q * nb + rem,
                    nb >= 1,
                    rem >= 0,
            ;
            assert(magnitude(a as nat) * pow2(ta as nat) == na as nat * pow2(ea as nat))
                by (nonlinear_arith)
                requires
                    magnitude(a as nat) == ma as nat * pow2(ea as nat),
                    na as nat == ma as nat * pow2(ta as nat),
            ;
            assert(magnitude(b as nat) * pow2(tb as nat) == nb as nat * pow2(eb as nat))
                by (nonlinear_arith)
                requires
                    magnitude(b as nat) == mb as nat * pow2(eb as nat),
                    nb as nat == mb as nat * pow2(tb as nat),
            ;
            rounding::lemma_scaled_quotient(
                magnitude(a as nat),
                magnitude(b as nat),
                na as nat,
                ea as nat,
                ta as nat,
                nb as nat,
                eb as nat,
                tb as nat,
                q as nat,
                rem as nat,
            );
        }
        round_scaled(negative, q, e, rem != 0, Ghost(num), Ghost(den))
    }

    /// The rounded square root.
    pub fn sqrt(self) -> (r: F32)
        ensures
            r == self.spec_sqrt(),
    {
        reveal(F32::spec_sqrt);
        let a: u32 = self.bits % 0x8000_0000;
        if a > 0x7f80_0000 || (self.bits >= 0x8000_0000 && a != 0) {
            return F32 { bits: NAN_BITS };
        }
        if a == 0x7f80_0000 || a == 0 {
            return self;
        }
        let (ma, ea) = parts(a);
        let (na, ta) = normalized(ma);
        // an even exponent, and 25 or 26 bits
        let shift: i32 = if (ea + 149 - ta - 1) % 2 == 0 {
            1
        } else {
            2
        };
        let m: u64 = if shift == 1 {
            na * 2
        } else {
            na * 4
        };
        let e: i32 = ea + 149 - ta - shift;
        let half: i32 = (e - 24) / 2;
        proof {
            lemma2_to64();
            lemma2_to64_rest();
            vstd::bits::lemma_u64_shl_is_mul(m, 24);
        }
        let wide: u64 = m << 24u64;
        let root = integer_root(wide);
        proof {
            let n = magnitude(a as nat) * pow2(149);
            let h = half as nat;
            assert(2 * h == e - 24);
            // n == wide * 2^(2 h)
            let t = (ta + shift) as nat;
            lemma_pow2_adds(ea as nat, 149);
            lemma_pow2_adds(24, 2 * h);
            lemma_pow2_adds(24 + 2 * h, t);
            lemma_pow2_adds(ta as nat, shift as nat);
            lemma_pow2_pos(t);
            assert(24 + 2 * h + t == ea + 149);
            assert(m as nat == ma as nat * pow2(t)) by (nonlinear_arith)
                requires
                    m as nat == na as nat * pow2(shift as nat),
                    na as nat == ma as nat * pow2(ta as nat),
                    pow2(t) == pow2(ta as nat) * pow2(shift as nat),
            ;
            let pt = pow2(t);
            let p24 = pow2(24);
            let ph = pow2(2 * h);
            let p149 = pow2(149);
            let pe = pow2(ea as nat);
            assert(n == wide as nat * ph) by (nonlinear_arith)
                requires
                    n == (ma as nat * pe) * p149,
                    pe * p149 == p24 * ph * pt,
                    m as nat == ma as nat * pt,
                    wide as nat == m as nat * p24,
            ;
            rounding::lemma_root(n, wide as nat, h, root as nat);
        }
        make(false, (half as u32 + 1) * 0x80_0000 + ((root + 1) / 2) as u32)
    }

    /// `self < other`; false if either is not a number.
    pub fn lt(self, other: F32) -> (r: bool)
        ensures
            r == self.spec_lt(other),
    {
        reveal(F32::spec_lt);
        let a: u32 = self.bits % 0x8000_0000;
        let b: u32 = other.bits % 0x8000_0000;
        proof {
            if a <= 0x7f80_0000 && b <= 0x7f80_0000 {
                lemma_magnitude_zero(a as nat);
                lemma_magnitude_zero(b as nat);
                if a < b {
                    lemma_magnitude_monotone(a as nat, b as nat);
                } else if b < a {
                    lemma_magnitude_monotone(b as nat, a as nat);
                }
            }
        }
        if a > 0x7f80_0000 || b > 0x7f80_0000 {
            false
        } else if self.bits >= 0x8000_0000 {
            if other.bits >= 0x8000_0000 {
                b < a
            } else {
                a > 0 || b > 0
            }
        } else {
            other.bits < 0x8000_0000 && a < b
        }
    }

    /// `self <= other`; false if either is not a number.
    pub fn le(self, other: F32) -> (r: bool)
        ensures
            r == self.spec_le(other),
    {
        reveal(F32::spec_lt);
        reveal(F32::spec_le);
        !self.is_nan() && !other.is_nan() && !other.lt(self)
    }

    /// The smaller of two numbers; if one is not a number, the other.
    pub fn min(self, other: F32) -> (r: F32)
        ensures
            r == self.spec_min(other),
    {
        if self.is_nan() {
            other
        } else if other.is_nan() || self.lt(other) {
            self
        } else {
            other
        }
    }

    /// The number nearest to an unsigned integer.
    pub fn from_u64(n: u64) -> (r: F32)
        ensures
            r == F32::spec_from_int(n as int),
    {
        reveal(F32::spec_from_int);
        proof {
            rounding::lemma_scaled_exact(n as nat, 149, 0);
            lemma2_to64();
        }
        if n < 0x4000_0000_0000_0000 {
            round_scaled(false, n, 149, false, Ghost(n as nat * pow2(149)), Ghost(1))
        } else {
            let m: u64 = n / 4;
            proof {
                let p = pow2(149);
                lemma_pow2_adds(149, 2);
                lemma_pow2_pos(149);
                assert(pow2(151) == p * 4);
                assert(m as nat * (1 * pow2(151)) == (m * 4) as nat * p) by (nonlinear_arith)
                    requires
                        pow2(151) == p * 4,
                ;
                assert((m + 1) as nat * (1 * pow2(151)) == (m * 4 + 4) as nat * p)
                    by (nonlinear_arith)
                    requires
                        pow2(151) == p * 4,
                ;
                assert((m * 4) as nat * p <= n as nat * p < (m * 4 + 4) as nat * p)
                    by (nonlinear_arith)
                    requires
                        m * 4 <= n < m * 4 + 4,
                        p > 0,
                ;
                assert((m * 4) as nat * p == n as nat * p ==> m * 4 == n) by (nonlinear_arith)
                    requires
                        p > 0,
                ;
                assert(n % 4 != 0 <==> m * 4 != n);
            }
            round_scaled(false, m, 151, n % 4 != 0, Ghost(n as nat * pow2(149)), Ghost(1))
        }
    }

    /// The number nearest to a signed integer.
    pub fn from_i64(n: i64) -> (r: F32)
        requires
            -0x1_0000_0000_0000 <= n <= 0x1_0000_0000_0000,
        ensures
            r == F32::spec_from_int(n as int),
    {
        reveal(F32::spec_from_int);
        let m: u64 = if n < 0 {
            (-n) as u64
        } else {
            n as u64
        };
        proof {
            rounding::lemma_scaled_exact(m as nat, 149, 0);
            lemma2_to64();
        }
        round_scaled(n < 0, m, 149, false, Ghost(m as nat * pow2(149)), Ghost(1))
    }
}

} // verus!
