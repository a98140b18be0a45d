//! Laws on the keys of outlines: nothing that goes into a key is lost.

use crate::cache_key;
use crate::float::F32;
use vstd::arithmetic::div_mod::lemma_fundamental_div_mod;
use vstd::prelude::*;

verus! {

/// The range of a hash.
const RANGE: u128 = 0x1_0000_0000_0000_0000;

/// What the prime of the hash is turned around by: their product is one more
/// than a multiple of the range.
const INVERSE: u64 = 0xce96_5057_aff6_957b;

/// How often the range goes into that product.
const TIMES: u64 = 887_285_111_055;

/// Two sequences of the same length that differ in one place, and there only.
pub open spec fn differ_at(a: Seq<u8>, b: Seq<u8>, i: int) -> bool {
    &&& a.len() == b.len()
    &&& 0 <= i < a.len()
    &&& a[i] != b[i]
    &&& forall|j: int| 0 <= j < a.len() && j != i ==> #[trigger] a[j] == b[j]
}

/// The number whose four bytes stand at a place, the lowest first.
pub open spec fn number_at(bytes: Seq<u8>, i: int) -> int {
    bytes[i] + 0x100 * bytes[i + 1] + 0x1_0000 * bytes[i + 2] + 0x100_0000 * bytes[i + 3]
}

/// Multiplying by the prime of the hash loses nothing.
proof fn lemma_product_is_injective(x: u64, y: u64)
    requires
        x.wrapping_mul(cache_key::PRIME) == y.wrapping_mul(cache_key::PRIME),
    ensures
        x == y,
{
    let p = cache_key::PRIME as int;
    let m = RANGE as int;
    let a = (x * p) / m;
    let b = (y * p) / m;
    lemma_fundamental_div_mod(x * p, m);
    lemma_fundamental_div_mod(y * p, m);
    assert((x * p) % m == (y * p) % m);
    assert(p * INVERSE == 1 + TIMES * m);
    let d = x - y;
    let k = a - b;
    assert(d * p == m * k);
    assert(d == m * (k * INVERSE - TIMES * d));
    assert(d == 0);
}

/// One step of the hash tells both the hash before it and the byte.
pub proof fn law_hash_step_is_injective(a: Seq<u8>, b: Seq<u8>, x: u8, y: u8)
    ensures
        cache_key::fnv(a.push(x)) == cache_key::fnv(b.push(x)) ==> cache_key::fnv(a)
            == cache_key::fnv(b),
        cache_key::fnv(a.push(x)) == cache_key::fnv(a.push(y)) ==> x == y,
{
    assert(a.push(x).drop_last() =~= a);
    assert(a.push(y).drop_last() =~= a);
    assert(b.push(x).drop_last() =~= b);
    let g = cache_key::fnv(a);
    let h = cache_key::fnv(b);
    let u = x as u64;
    let v = y as u64;
    if cache_key::fnv(a.push(x)) == cache_key::fnv(b.push(x)) {
        lemma_product_is_injective(g ^ u, h ^ u);
        assert(g == h) by (bit_vector)
            requires
                g ^ u == h ^ u,
        ;
    }
    if cache_key::fnv(a.push(x)) == cache_key::fnv(a.push(y)) {
        lemma_product_is_injective(g ^ u, g ^ v);
        assert(u == v) by (bit_vector)
            requires
                g ^ u == g ^ v,
        ;
    }
}

/// Sequences that differ in one byte, wherever it stands, have different
/// hashes.
pub proof fn law_hash_tells_every_byte(a: Seq<u8>, b: Seq<u8>, i: int)
    requires
        differ_at(a, b, i),
    ensures
        cache_key::fnv(a) != cache_key::fnv(b),
    decreases a.len(),
{
    let p = a.drop_last();
    let q = b.drop_last();
    assert(a =~= p.push(a.last()));
    assert(b =~= q.push(b.last()));
    law_hash_step_is_injective(p, q, a.last(), b.last());
    if i == a.len() - 1 {
        assert(p =~= q);
    } else {
        assert(a[a.len() - 1] == b[a.len() - 1]);
        law_hash_tells_every_byte(p, q, i);
    }
}

/// Two images of the same length that differ in one byte, be it the first, the
/// last or any other, have different keys when all else is equal.
pub proof fn law_key_tells_every_byte_of_the_image(
    a: Seq<u8>,
    b: Seq<u8>,
    i: int,
    sw: u32,
    sh: u32,
    size: (F32, F32),
    threshold: u8,
    epsilon: F32,
)
    requires
        differ_at(a, b, i),
    ensures
        cache_key::key(a, sw, sh, size, threshold, epsilon) != cache_key::key(
            b,
            sw,
            sh,
            size,
            threshold,
            epsilon,
        ),
{
    let x = cache_key::outline_input(a, sw, sh, size, threshold, epsilon);
    let y = cache_key::outline_input(b, sw, sh, size, threshold, epsilon);
    assert forall|j: int| 0 <= j < x.len() && j != i implies #[trigger] x[j] == y[j] by {
        if j < a.len() {
            assert(a[j] == b[j]);
        }
    }
    assert(x[i] == a[i] && y[i] == b[i]);
    law_hash_tells_every_byte(x, y, i);
}

/// The keys that are computed for two images of the same length are different if
/// the images differ in one byte and all else is equal.
pub proof fn law_computed_keys_tell_every_byte(
    a: &[u8],
    b: &[u8],
    i: int,
    sw: u32,
    sh: u32,
    size: (F32, F32),
    threshold: u8,
    epsilon: F32,
    x: u64,
    y: u64,
)
    requires
        differ_at(a@, b@, i),
        call_ensures(cache_key::outline_cache_key, (a, sw, sh, size, threshold, epsilon), x),
        call_ensures(cache_key::outline_cache_key, (b, sw, sh, size, threshold, epsilon), y),
    ensures
        x != y,
{
    law_key_tells_every_byte_of_the_image(a@, b@, i, sw, sh, size, threshold, epsilon);
}

/// Whatever goes into a key counts in it: where all that two outlines depend on
/// is written down as bytes and differs in one of them, their keys differ.
pub proof fn law_key_tells_every_input(
    a: Seq<u8>,
    b: Seq<u8>,
    aw: u32,
    bw: u32,
    ah: u32,
    bh: u32,
    a_size: (F32, F32),
    b_size: (F32, F32),
    a_threshold: u8,
    b_threshold: u8,
    a_epsilon: F32,
    b_epsilon: F32,
    i: int,
)
    requires
        differ_at(
            cache_key::outline_input(a, aw, ah, a_size, a_threshold, a_epsilon),
            cache_key::outline_input(b, bw, bh, b_size, b_threshold, b_epsilon),
            i,
        ),
    ensures
        cache_key::key(a, aw, ah, a_size, a_threshold, a_epsilon) != cache_key::key(
            b,
            bw,
            bh,
            b_size,
            b_threshold,
            b_epsilon,
        ),
{
    law_hash_tells_every_byte(
        cache_key::outline_input(a, aw, ah, a_size, a_threshold, a_epsilon),
        cache_key::outline_input(b, bw, bh, b_size, b_threshold, b_epsilon),
        i,
    );
}

/// Outlines for different thresholds have different keys when all else is equal.
pub proof fn law_key_tells_threshold(
    bytes: Seq<u8>,
    sw: u32,
    sh: u32,
    size: (F32, F32),
    s: u8,
    t: u8,
    epsilon: F32,
)
    requires
        s != t,
    ensures
        cache_key::key(bytes, sw, sh, size, s, epsilon) != cache_key::key(
            bytes,
            sw,
            sh,
            size,
            t,
            epsilon,
        ),
{
    let x = cache_key::outline_input(bytes, sw, sh, size, s, epsilon);
    let y = cache_key::outline_input(bytes, sw, sh, size, t, epsilon);
    let i = bytes.len() as int + 16;
    assert(x[i] == s && y[i] == t);
    law_hash_tells_every_byte(x, y, i);
}

/// What is hashed is the image, byte for byte, then the width, the height, the
/// two sides of the object, the threshold and the tolerance, each number with
/// its lowest byte first.
pub proof fn law_key_hashes_everything(
    bytes: Seq<u8>,
    sw: u32,
    sh: u32,
    size: (F32, F32),
    threshold: u8,
    epsilon: F32,
    all: Seq<u8>,
)
    requires
        all.len() == bytes.len() + 21,
        all.take(bytes.len() as int) == bytes,
        sw == number_at(all, bytes.len() as int),
        sh == number_at(all, bytes.len() as int + 4),
        size.0.bits == number_at(all, bytes.len() as int + 8),
        size.1.bits == number_at(all, bytes.len() as int + 12),
        threshold == all[bytes.len() as int + 16],
        epsilon.bits == number_at(all, bytes.len() as int + 17),
    ensures
        cache_key::key(bytes, sw, sh, size, threshold, epsilon) == cache_key::fnv(all),
{
    let n = bytes.len() as int;
    lemma_bytes_of(sw, all, n);
    lemma_bytes_of(sh, all, n + 4);
    lemma_bytes_of(size.0.bits, all, n + 8);
    lemma_bytes_of(size.1.bits, all, n + 12);
    lemma_bytes_of(epsilon.bits, all, n + 17);
    let x1 = bytes + cache_key::le_bytes(sw);
    let x2 = x1 + cache_key::le_bytes(sh);
    let x3 = x2 + cache_key::le_bytes(size.0.bits);
    let x4 = x3 + cache_key::le_bytes(size.1.bits);
    let x5 = x4 + seq![threshold];
    lemma_longer(bytes, cache_key::le_bytes(sw), all);
    lemma_longer(x1, cache_key::le_bytes(sh), all);
    lemma_longer(x2, cache_key::le_bytes(size.0.bits), all);
    lemma_longer(x3, cache_key::le_bytes(size.1.bits), all);
    lemma_longer(x4, seq![threshold], all);
    lemma_longer(x5, cache_key::le_bytes(epsilon.bits), all);
    assert(all.take(n + 21) =~= all);
}

/// What a sequence begins with, and what follows, is what it begins with.
proof fn lemma_longer(a: Seq<u8>, b: Seq<u8>, all: Seq<u8>)
    requires
        a.len() + b.len() <= all.len(),
        all.take(a.len() as int) == a,
        forall|j: int| 0 <= j < b.len() ==> #[trigger] b[j] == all[a.len() + j],
    ensures
        all.take((a + b).len() as int) == a + b,
{
    assert forall|j: int| 0 <= j < (a + b).len() implies (a + b)[j] == all[j] by {
        if j < a.len() {
            assert(all.take(a.len() as int)[j] == all[j]);
        } else {
            assert(b[j - a.len()] == all[j]);
        }
    }
    assert(all.take((a + b).len() as int) =~= a + b);
}

proof fn lemma_four_bytes(x: u32, a: u8, b: u8, c: u8, d: u8)
    requires
        x == a + 0x100 * b + 0x1_0000 * c + 0x100_0000 * d,
    ensures
        (x % 0x100) as u8 == a,
        ((x / 0x100) % 0x100) as u8 == b,
        ((x / 0x1_0000) % 0x100) as u8 == c,
        (x / 0x100_0000) as u8 == d,
{
    assert(x / 0x100 == b + 0x100 * c + 0x1_0000 * d);
    assert(x / 0x1_0000 == c + 0x100 * d);
    assert(x / 0x100_0000 == d);
}

proof fn lemma_bytes_of(x: u32, all: Seq<u8>, i: int)
    requires
        0 <= i,
        i + 4 <= all.len(),
        x == number_at(all, i),
    ensures
        cache_key::le_bytes(x)[0] == all[i],
        cache_key::le_bytes(x)[1] == all[i + 1],
        cache_key::le_bytes(x)[2] == all[i + 2],
        cache_key::le_bytes(x)[3] == all[i + 3],
{
    lemma_four_bytes(x, all[i], all[i + 1], all[i + 2], all[i + 3]);
}

} // verus!
