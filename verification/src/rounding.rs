//! Rounding of exact rationals to the binary32 grid.
//!
//! Magnitudes are counted in units of `2^-149`, the smallest positive
//! binary32 number, so every finite magnitude is a natural number and the
//! bits of a magnitude are `quantum * 2^23 + significand`.

use vstd::arithmetic::mul::*;
use vstd::arithmetic::power2::*;
use vstd::prelude::*;

verus! {

/// The smallest `k` such that `num / den < 2^(24 + k)`: the result of rounding
/// `num / den` to 24 significant bits is a multiple of `2^k`.
pub open spec fn quantum(num: nat, den: nat) -> nat
    decreases num - den,
{
    if den == 0 || num < den * 0x100_0000 {
        0
    } else {
        1 + quantum(num, 2 * den)
    }
}

/// The integer nearest to `num / den`; of two equally near ones, the even one.
pub open spec fn nearest(num: nat, den: nat) -> nat {
    let below = num / den;
    let rest = num % den;
    if 2 * rest < den || (2 * rest == den && below % 2 == 0) {
        below
    } else {
        below + 1
    }
}

/// The magnitude bits of `num / den` (in units of `2^-149`) rounded to the
/// nearest binary32 number, ties to even, overflowing to infinity.
pub open spec fn round_bits(num: nat, den: nat) -> nat {
    let k = quantum(num, den);
    let bits = k * 0x80_0000 + nearest(num, den * pow2(k));
    if bits < 0x7f80_0000 {
        bits
    } else {
        0x7f80_0000
    }
}

/// The smallest `k` such that the square root of `n` is below `2^(24 + k)`.
pub open spec fn root_quantum(n: nat) -> nat
    decreases n,
{
    if n < 0x1_0000_0000_0000 {
        0
    } else {
        1 + root_quantum(n / 4)
    }
}

/// `s` times `unit` is the multiple of `unit` nearest to the square root of `n`.
pub open spec fn nearest_root(s: nat, n: nat, unit: nat) -> bool {
    &&& 4 * n < (2 * s + 1) * (2 * s + 1) * (unit * unit)
    &&& s > 0 ==> (2 * s - 1) * (2 * s - 1) * (unit * unit) <= 4 * n
}

/// The magnitude bits of the square root of `n` (the root in units of `2^-149`)
/// rounded to the nearest binary32 number. No square root of a binary32 number
/// lies half way between two of them.
pub open spec fn round_root_bits(n: nat) -> nat {
    let k = root_quantum(n);
    k * 0x80_0000 + choose|s: nat| nearest_root(s, n, pow2(k))
}

/// `pow2(e)` for a non-negative `e`, and 1 for a negative one.
pub open spec fn up(e: int) -> nat {
    pow2(if e >= 0 {
        e as nat
    } else {
        0
    })
}

/// `num / den` lies in `[m, m + 1) * 2^e`, and `sticky` says whether it is more
/// than `m * 2^e`.
pub open spec fn scaled(m: nat, e: int, sticky: bool, num: nat, den: nat) -> bool {
    &&& m * (den * up(e)) <= num * up(-e) < (m + 1) * (den * up(e))
    &&& sticky <==> m * (den * up(e)) != num * up(-e)
}

pub proof fn lemma_quantum(num: nat, den: nat, k: nat)
    requires
        den > 0,
        num < den * pow2(24 + k),
        k > 0 ==> num >= den * pow2((23 + k) as nat),
    ensures
        quantum(num, den) == k,
    decreases k,
{
    lemma2_to64();
    if k > 0 {
        lemma_pow2_unfold(24 + k);
        lemma_pow2_unfold((23 + k) as nat);
        let p = pow2((23 + k) as nat);
        assert(p >= 0x100_0000) by {
            if k > 1 {
                lemma_pow2_strictly_increases(24, (23 + k) as nat);
            }
        }
        assert(den * p >= den * 0x100_0000) by (nonlinear_arith)
            requires
                p >= 0x100_0000,
        ;
        let q = pow2((22 + k) as nat);
        assert(den * p == (2 * den) * q) by (nonlinear_arith)
            requires
                p == 2 * q,
        ;
        assert(den * pow2(24 + k) == (2 * den) * p) by (nonlinear_arith)
            requires
                pow2(24 + k) == 2 * p,
        ;
        lemma_quantum(num, 2 * den, (k - 1) as nat);
    }
}

/// What `nearest` returns follows from a division with remainder.
pub proof fn lemma_nearest(num: nat, den: nat, below: nat, rest: nat)
    requires
        den > 0,
        num == below * den + rest,
        rest < den,
    ensures
        nearest(num, den) == (if 2 * rest < den || (2 * rest == den && below % 2 == 0) {
            below
        } else {
            below + 1
        }),
{
    vstd::arithmetic::div_mod::lemma_fundamental_div_mod_converse(
        num as int,
        den as int,
        below as int,
        rest as int,
    );
}

/// Scaling numerator and denominator by the same factor changes nothing.
pub proof fn lemma_nearest_scale(num: nat, den: nat, c: nat)
    requires
        den > 0,
        c > 0,
    ensures
        nearest(num * c, den * c) == nearest(num, den),
{
    let below = num / den;
    let rest = num % den;
    vstd::arithmetic::div_mod::lemma_fundamental_div_mod(num as int, den as int);
    assert(num * c == below * (den * c) + rest * c) by (nonlinear_arith)
        requires
            num == den * below + rest,
    ;
    assert(rest * c < den * c) by (nonlinear_arith)
        requires
            rest < den,
            c > 0,
    ;
    assert(den * c > 0) by (nonlinear_arith)
        requires
            den > 0,
            c > 0,
    ;
    assert(2 * rest < den <==> 2 * (rest * c) < den * c) by (nonlinear_arith)
        requires
            c > 0,
    ;
    assert(2 * rest == den <==> 2 * (rest * c) == den * c) by (nonlinear_arith)
        requires
            c > 0,
    ;
    lemma_nearest(num * c, den * c, below, rest * c);
}

/// Rounding to a coarser grid only needs the integer part of the quotient and
/// whether anything is left beyond it.
proof fn lemma_nearest_sticky(x: nat, d: nat, m: nat, sticky: bool, unit: nat, base: nat, rem: nat)
    requires
        d > 0,
        unit > 0,
        unit % 2 == 0,
        m * d <= x < (m + 1) * d,
        sticky <==> m * d != x,
        m == base * unit + rem,
        rem < unit,
    ensures
        nearest(x, d * unit) == (if 2 * rem > unit || (2 * rem == unit && (sticky || base % 2
            == 1)) {
            base + 1
        } else {
            base
        }),
{
    let rest = (x - base * (d * unit)) as nat;
    assert(m * d == base * (d * unit) + rem * d) by (nonlinear_arith)
        requires
            m == base * unit + rem,
    ;
    assert((m + 1) * d == m * d + d) by (nonlinear_arith);
    assert(x == base * (d * unit) + rest);
    assert(rem * d <= rest < rem * d + d);
    assert(rem * d + d <= d * unit) by (nonlinear_arith)
        requires
            rem + 1 <= unit,
    ;
    assert(d * unit > 0) by (nonlinear_arith)
        requires
            d > 0,
            unit > 0,
    ;
    let half = unit / 2;
    assert(unit == 2 * half);
    assert(d * unit == 2 * (half * d)) by (nonlinear_arith)
        requires
            unit == 2 * half,
    ;
    if rem > half {
        assert(rem * d >= half * d + d) by (nonlinear_arith)
            requires
                rem >= half + 1,
        ;
    } else if rem < half {
        assert(rem * d + d <= half * d) by (nonlinear_arith)
            requires
                rem + 1 <= half,
        ;
    }
    lemma_nearest(x, d * unit, base, rest);
}

/// The quantum of a scaled quotient, and its significand as a rounding of the
/// scaled quotient itself.
pub proof fn lemma_scaled(m: nat, e: int, sticky: bool, num: nat, den: nat, len: nat, k: nat)
    requires
        den > 0,
        scaled(m, e, sticky, num, den),
        m < pow2(len),
        len > 0 ==> m >= pow2((len - 1) as nat),
        len + e <= 24 + k,
        k > 0 ==> len > 0 && k == len + e - 24,
    ensures
        quantum(num, den) == k,
        k >= e ==> nearest(num, den * pow2(k)) == nearest(
            num * up(-e),
            (den * up(e)) * pow2((k - e) as nat),
        ),
        k <= e ==> nearest(num, den * pow2(k)) == m * pow2((e - k) as nat) || sticky,
{
    let u = up(e);
    let dn = up(-e);
    let d = den * u;
    let eu: nat = if e >= 0 {
        e as nat
    } else {
        0
    };
    let ed: nat = if -e >= 0 {
        (-e) as nat
    } else {
        0
    };
    lemma_pow2_pos(eu);
    lemma_pow2_pos(ed);
    lemma_pow2_pos(k);
    assert(d > 0) by (nonlinear_arith)
        requires
            d == den * u,
            den > 0,
            u > 0,
    ;
    // upper bound
    let top = pow2(24 + k);
    assert(pow2(len) * u <= top * dn) by {
        lemma_pow2_adds(len, eu);
        lemma_pow2_adds(24 + k, ed);
        if len + eu < 24 + k + ed {
            lemma_pow2_strictly_increases(len + eu, 24 + k + ed);
        }
    }
    assert(num < den * top) by {
        assert((m + 1) * d <= pow2(len) * d) by (nonlinear_arith)
            requires
                m + 1 <= pow2(len),
        ;
        assert(pow2(len) * d == den * (pow2(len) * u)) by (nonlinear_arith)
            requires
                d == den * u,
        ;
        assert(den * (pow2(len) * u) <= den * (top * dn)) by (nonlinear_arith)
            requires
                pow2(len) * u <= top * dn,
        ;
        assert(den * (top * dn) == (den * top) * dn) by (nonlinear_arith);
        assert(num * dn < (den * top) * dn);
        assert(num < den * top) by (nonlinear_arith)
            requires
                num * dn < (den * top) * dn,
                dn > 0,
        ;
    }
    // lower bound
    if k > 0 {
        let bot = pow2((23 + k) as nat);
        let lo = pow2((len - 1) as nat);
        assert(lo * u == bot * dn) by {
            lemma_pow2_adds((len - 1) as nat, eu);
            lemma_pow2_adds((23 + k) as nat, ed);
            assert(len - 1 + eu == 23 + k + ed);
        }
        assert(m * d >= lo * d) by (nonlinear_arith)
            requires
                m >= lo,
        ;
        assert(lo * d == den * (lo * u)) by (nonlinear_arith)
            requires
                d == den * u,
        ;
        assert(den * (bot * dn) == (den * bot) * dn) by (nonlinear_arith);
        assert(num * dn >= (den * bot) * dn);
        assert(num >= den * bot) by (nonlinear_arith)
            requires
                num * dn >= (den * bot) * dn,
                dn > 0,
        ;
    }
    lemma_quantum(num, den, k);
    let p = pow2(k);
    assert(den * p > 0) by (nonlinear_arith)
        requires
            den > 0,
            p > 0,
    ;
    lemma_nearest_scale(num, den * p, dn);
    if k >= e {
        let sh = pow2((k - e) as nat);
        assert(p * dn == u * sh) by {
            lemma_pow2_adds(k, ed);
            lemma_pow2_adds(eu, (k - e) as nat);
            assert(k + ed == eu + (k - e));
        }
        assert((den * p) * dn == d * sh) by (nonlinear_arith)
            requires
                p * dn == u * sh,
                d == den * u,
        ;
    }
    if k <= e && !sticky {
        let sh = pow2((e - k) as nat);
        assert(u == p * sh) by {
            lemma_pow2_adds(k, (e - k) as nat);
        }
        assert(dn == 1) by {
            lemma2_to64();
        }
        assert(num == (m * sh) * (den * p)) by (nonlinear_arith)
            requires
                num * dn == m * (den * u),
                u == p * sh,
                dn == 1,
        ;
        lemma_nearest(num, den * p, m * sh, 0);
    }
}

/// The significand obtained by dropping `sh` low bits of `m`.
pub proof fn lemma_scaled_drop(
    m: nat,
    e: int,
    sticky: bool,
    num: nat,
    den: nat,
    k: nat,
    sh: nat,
    base: nat,
    rem: nat,
)
    requires
        den > 0,
        scaled(m, e, sticky, num, den),
        sh > 0,
        k - e == sh,
        m == base * pow2(sh) + rem,
        rem < pow2(sh),
        nearest(num, den * pow2(k)) == nearest(num * up(-e), (den * up(e)) * pow2(sh)),
    ensures
        nearest(num, den * pow2(k)) == (if 2 * rem > pow2(sh) || (2 * rem == pow2(sh) && (sticky
            || base % 2 == 1)) {
            base + 1
        } else {
            base
        }),
{
    let u = up(e);
    let eu: nat = if e >= 0 {
        e as nat
    } else {
        0
    };
    lemma_pow2_pos(eu);
    lemma_pow2_pos(sh);
    lemma_pow2_unfold(sh);
    assert(den * u > 0) by (nonlinear_arith)
        requires
            den > 0,
            u > 0,
    ;
    lemma_nearest_sticky(num * up(-e), den * u, m, sticky, pow2(sh), base, rem);
}

/// A significand times a power of two, over a power of two, is scaled exactly.
pub proof fn lemma_scaled_exact(m: nat, x: nat, y: nat)
    ensures
        scaled(m, x - y, false, m * pow2(x), pow2(y)),
        pow2(y) > 0,
{
    let e = x - y;
    let eu: nat = if e >= 0 {
        e as nat
    } else {
        0
    };
    let ed: nat = if -e >= 0 {
        (-e) as nat
    } else {
        0
    };
    lemma_pow2_pos(y);
    lemma_pow2_pos(eu);
    lemma_pow2_adds(y, eu);
    lemma_pow2_adds(x, ed);
    assert(pow2(y) * up(e) == pow2(x) * up(-e));
    assert(m * (pow2(y) * up(e)) == (m * pow2(x)) * up(-e)) by (nonlinear_arith)
        requires
            pow2(y) * up(e) == pow2(x) * up(-e),
    ;
    let d = pow2(y) * up(e);
    assert(d > 0) by (nonlinear_arith)
        requires
            d == pow2(y) * up(e),
            pow2(y) > 0,
            up(e) > 0,
    ;
    assert((m + 1) * d == m * d + d) by (nonlinear_arith);
}

/// The quotient of two scaled numbers, from the division of their significands.
pub proof fn lemma_scaled_quotient(
    mag_a: nat,
    mag_b: nat,
    a: nat,
    ea: nat,
    ta: nat,
    b: nat,
    eb: nat,
    tb: nat,
    q: nat,
    rem: nat,
)
    requires
        mag_a * pow2(ta) == a * pow2(ea),
        mag_b * pow2(tb) == b * pow2(eb),
        mag_b > 0,
        a * pow2(38) == q * b + rem,
        rem < b,
    ensures
        scaled(
            q,
            ea - ta - eb + tb + 111,
            rem != 0,
            mag_a * pow2(149),
            mag_b,
        ),
{
    let e = ea - ta - eb + tb + 111;
    let num = mag_a * pow2(149);
    let eu: nat = if e >= 0 {
        e as nat
    } else {
        0
    };
    let ed: nat = if -e >= 0 {
        (-e) as nat
    } else {
        0
    };
    let c = pow2(ta) * pow2(tb);
    lemma_pow2_pos(ta);
    lemma_pow2_pos(tb);
    assert(c > 0) by (nonlinear_arith)
        requires
            c == pow2(ta) * pow2(tb),
            pow2(ta) > 0,
            pow2(tb) > 0,
    ;
    let p = pow2(eb + ta + eu);
    lemma_pow2_pos(eb + ta + eu);
    // (num * up(-e)) * c == (a * 2^38) * p
    let x = num * up(-e);
    let d = mag_b * up(e);
    assert(x * c == (a * pow2(38)) * p) by {
        lemma_pow2_adds(ea, 111);
        lemma_pow2_adds(111, 38);
        lemma_pow2_adds(ea + 111, tb);
        lemma_pow2_adds(ea + 111 + tb, ed);
        assert(ea + 111 + tb + ed == eb + ta + eu);
        let p149 = pow2(149);
        let p111 = pow2(111);
        let p38 = pow2(38);
        let pea = pow2(ea);
        let pta = pow2(ta);
        let ptb = pow2(tb);
        let ped = up(-e);
        assert(p == pea * p111 * ptb * ped);
        assert(p149 == p111 * p38);
        assert(x * c == (mag_a * pta) * (p149 * ptb * ped)) by (nonlinear_arith)
            requires
                x == (mag_a * p149) * ped,
                c == pta * ptb,
        ;
        assert((a * pea) * (p149 * ptb * ped) == (a * p38) * (pea * p111 * ptb * ped))
            by (nonlinear_arith)
            requires
                p149 == p111 * p38,
        ;
    }
    assert(d * c == b * p) by {
        lemma_pow2_adds(eb, ta);
        lemma_pow2_adds(eb + ta, eu);
        let peb = pow2(eb);
        let pta = pow2(ta);
        let ptb = pow2(tb);
        let peu = up(e);
        assert(p == peb * pta * peu);
        assert(d * c == (mag_b * ptb) * (pta * peu)) by (nonlinear_arith)
            requires
                d == mag_b * peu,
                c == pta * ptb,
        ;
        assert((b * peb) * (pta * peu) == b * (peb * pta * peu)) by (nonlinear_arith);
    }
    assert(x * c == (q * d) * c + rem * p) by (nonlinear_arith)
        requires
            x * c == (a * pow2(38)) * p,
            a * pow2(38) == q * b + rem,
            d * c == b * p,
    ;
    assert(0 <= rem * p < d * c) by (nonlinear_arith)
        requires
            rem < b,
            p > 0,
            d * c == b * p,
    ;
    assert(rem * p == 0 <==> rem == 0) by (nonlinear_arith)
        requires
            p > 0,
    ;
    assert(q * d <= x < (q + 1) * d) by (nonlinear_arith)
        requires
            x * c == (q * d) * c + rem * p,
            0 <= rem * p < d * c,
            c > 0,
    ;
    assert(rem * p == 0 <==> q * d == x) by (nonlinear_arith)
        requires
            x * c == (q * d) * c + rem * p,
            c > 0,
    ;
}

pub proof fn lemma_root_quantum(n: nat, k: nat)
    requires
        n < pow2(48 + 2 * k),
        k > 0 ==> n >= pow2((46 + 2 * k) as nat),
    ensures
        root_quantum(n) == k,
    decreases k,
{
    lemma2_to64();
    lemma2_to64_rest();
    if k > 0 {
        lemma_pow2_unfold(48 + 2 * k);
        lemma_pow2_unfold((47 + 2 * k) as nat);
        lemma_pow2_unfold((46 + 2 * k) as nat);
        lemma_pow2_unfold((45 + 2 * k) as nat);
        if k > 1 {
            lemma_pow2_strictly_increases(48, (46 + 2 * k) as nat);
        }
        lemma_root_quantum(n / 4, (k - 1) as nat);
    }
}

/// The rounded square root of `m * 4^h`, from the integer square root of `m`.
pub proof fn lemma_root(n: nat, m: nat, h: nat, r: nat)
    requires
        n == m * pow2(2 * h),
        pow2(48) <= m < pow2(50),
        r * r <= m < (r + 1) * (r + 1),
    ensures
        round_root_bits(n) == (h + 1) * 0x80_0000 + (r + 1) / 2,
{
    let k = h + 1;
    let g = pow2(2 * h);
    lemma_pow2_pos(2 * h);
    lemma_pow2_adds(50, 2 * h);
    lemma_pow2_adds(48, 2 * h);
    assert(n < pow2(50) * g) by (nonlinear_arith)
        requires
            n == m * g,
            m < pow2(50),
            g > 0,
    ;
    assert(n >= pow2(48) * g) by (nonlinear_arith)
        requires
            n == m * g,
            m >= pow2(48),
    ;
    lemma_root_quantum(n, k);
    let s = (r + 1) / 2;
    let unit = pow2(k);
    assert(unit * unit == 4 * g) by {
        lemma_pow2_adds(k, k);
        lemma_pow2_unfold(2 * h + 2);
        lemma_pow2_unfold(2 * h + 1);
    }
    let hi = 2 * s + 1;
    assert(hi * hi >= (r + 1) * (r + 1)) by (nonlinear_arith)
        requires
            hi >= r + 1,
    ;
    assert(4 * n < hi * hi * (unit * unit)) by (nonlinear_arith)
        requires
            unit * unit == 4 * g,
            n == m * g,
            m < hi * hi,
            g > 0,
    ;
    let lo = 2 * s - 1;
    if s > 0 {
        assert(lo * lo <= r * r) by (nonlinear_arith)
            requires
                0 <= lo <= r,
        ;
        assert(lo * lo * (unit * unit) <= 4 * n) by (nonlinear_arith)
            requires
                unit * unit == 4 * g,
                n == m * g,
                lo * lo <= m,
                g > 0,
        ;
    }
    assert(nearest_root(s, n, unit));
    let t = choose|t: nat| nearest_root(t, n, unit);
    assert(nearest_root(t, n, unit));
    lemma_nearest_root_unique(s, t, n, unit);
}

pub proof fn lemma_nearest_root_unique(s: nat, t: nat, n: nat, unit: nat)
    requires
        nearest_root(s, n, unit),
        nearest_root(t, n, unit),
    ensures
        s == t,
{
    if s < t {
        lemma_nearest_root_order(s, t, n, unit);
    } else if t < s {
        lemma_nearest_root_order(t, s, n, unit);
    }
}

proof fn lemma_nearest_root_order(s: nat, t: nat, n: nat, unit: nat)
    requires
        nearest_root(s, n, unit),
        nearest_root(t, n, unit),
    ensures
        t <= s,
{
    if s < t {
        let a = 2 * s + 1;
        let b = 2 * t - 1;
        let u = unit * unit;
        assert(a * a <= b * b) by (nonlinear_arith)
            requires
                0 <= a <= b,
        ;
        assert(u >= 0) by (nonlinear_arith)
            requires
                u == unit * unit,
        ;
        assert(a * a * u <= b * b * u) by (nonlinear_arith)
            requires
                a * a <= b * b,
                u >= 0,
        ;
    }
}

} // verus!
