//! Keys under which outlines are cached.

use crate::float::F32;
use vstd::prelude::*;

verus! {

/// What the FNV-1a hash of no bytes is.
pub const BASIS: u64 = 0xcbf2_9ce4_8422_2325;

/// What the FNV-1a hash is multiplied with for every byte.
pub const PRIME: u64 = 0x0000_0100_0000_01b3;

/// The 64-bit FNV-1a hash.
pub open spec fn fnv(bytes: Seq<u8>) -> u64
    decreases bytes.len(),
{
    if bytes.len() == 0 {
        BASIS
    } else {
        (fnv(bytes.drop_last()) ^ (bytes.last() as u64)).wrapping_mul(PRIME)
    }
}

/// The bytes of a number, the lowest first.
pub open spec fn le_bytes(x: u32) -> Seq<u8> {
    seq![
        (x % 0x100) as u8,
        ((x / 0x100) % 0x100) as u8,
        ((x / 0x1_0000) % 0x100) as u8,
        (x / 0x100_0000) as u8,
    ]
}

/// All that an outline depends on, as bytes.
pub open spec fn outline_input(
    bytes: Seq<u8>,
    sw: u32,
    sh: u32,
    size: (F32, F32),
    threshold: u8,
    epsilon: F32,
) -> Seq<u8> {
    bytes + le_bytes(sw) + le_bytes(sh) + le_bytes(size.0.bits) + le_bytes(size.1.bits)
        + seq![threshold] + le_bytes(epsilon.bits)
}

/// The key of an outline: the hash of all that it depends on.
pub open spec fn key(
    bytes: Seq<u8>,
    sw: u32,
    sh: u32,
    size: (F32, F32),
    threshold: u8,
    epsilon: F32,
) -> u64 {
    fnv(outline_input(bytes, sw, sh, size, threshold, epsilon))
}

fn feed(h: u64, b: u8, Ghost(done): Ghost<Seq<u8>>) -> (r: u64)
    requires
        h == fnv(done),
    ensures
        r == fnv(done.push(b)),
{
    assert(done.push(b).drop_last() =~= done);
    (h ^ (b as u64)).wrapping_mul(PRIME)
}

fn feed_number(h: u64, x: u32, Ghost(done): Ghost<Seq<u8>>) -> (r: u64)
    requires
        h == fnv(done),
    ensures
        r == fnv(done + le_bytes(x)),
{
    let b0: u8 = (x % 0x100) as u8;
    let b1: u8 = ((x / 0x100) % 0x100) as u8;
    let b2: u8 = ((x / 0x1_0000) % 0x100) as u8;
    let b3: u8 = (x / 0x100_0000) as u8;
    let h0 = feed(h, b0, Ghost(done));
    let h1 = feed(h0, b1, Ghost(done.push(b0)));
    let h2 = feed(h1, b2, Ghost(done.push(b0).push(b1)));
    let h3 = feed(h2, b3, Ghost(done.push(b0).push(b1).push(b2)));
    assert(done.push(b0).push(b1).push(b2).push(b3) =~= done + le_bytes(x));
    h3
}

/// The key of an outline: the FNV-1a hash of all that it depends on.
pub fn outline_cache_key(
    bytes: &[u8],
    sw: u32,
    sh: u32,
    size: (F32, F32),
    threshold: u8,
    epsilon: F32,
) -> (r: u64)
    ensures
        r == key(bytes@, sw, sh, size, threshold, epsilon),
{
    let mut h: u64 = BASIS;
    for i in 0..bytes.len()
        invariant
            h == fnv(bytes@.take(i as int)),
    {
        h = feed(h, bytes[i], Ghost(bytes@.take(i as int)));
        assert(bytes@.take(i as int).push(bytes@[i as int]) =~= bytes@.take(i + 1));
    }
    assert(bytes@.take(bytes@.len() as int) =~= bytes@);
    let ghost d0 = bytes@;
    h = feed_number(h, sw, Ghost(d0));
    let ghost d1 = d0 + le_bytes(sw);
    h = feed_number(h, sh, Ghost(d1));
    let ghost d2 = d1 + le_bytes(sh);
    h = feed_number(h, size.0.to_bits(), Ghost(d2));
    let ghost d3 = d2 + le_bytes(size.0.bits);
    h = feed_number(h, size.1.to_bits(), Ghost(d3));
    let ghost d4 = d3 + le_bytes(size.1.bits);
    h = feed(h, threshold, Ghost(d4));
    let ghost d5 = d4 + seq![threshold];
    assert(d4.push(threshold) =~= d5);
    h = feed_number(h, epsilon.to_bits(), Ghost(d5));
    h
}

/// The value of four bytes, the lowest first.
spec fn le_value(b: Seq<u8>) -> int {
    b[0] + 0x100 * b[1] + 0x1_0000 * b[2] + 0x100_0000 * b[3]
}

proof fn lemma_le_value(x: u32)
    ensures
        le_value(le_bytes(x)) == x,
{
}

/// What is hashed tells all that an outline depends on: different inputs are
/// different sequences of bytes.
pub proof fn law_input_is_not_ambiguous(
    a: Seq<u8>,
    b: Seq<u8>,
    aw: u32,
    bw: u32,
    ah: u32,
    bh: u32,
    a_size: (F32, F32),
    b_size: (F32, F32),
    a_threshold: u8,
    b_threshold: u8,
    a_epsilon: F32,
    b_epsilon: F32,
)
    requires
        outline_input(a, aw, ah, a_size, a_threshold, a_epsilon) == outline_input(
            b,
            bw,
            bh,
            b_size,
            b_threshold,
            b_epsilon,
        ),
    ensures
        a == b,
        aw == bw,
        ah == bh,
        a_size == b_size,
        a_threshold == b_threshold,
        a_epsilon == b_epsilon,
{
    let x = outline_input(a, aw, ah, a_size, a_threshold, a_epsilon);
    let y = outline_input(b, bw, bh, b_size, b_threshold, b_epsilon);
    let n = a.len() as int;
    assert(x.len() == a.len() + 21 && y.len() == b.len() + 21);
    assert(a =~= x.subrange(0, n));
    assert(b =~= y.subrange(0, n));
    assert(le_bytes(aw) =~= x.subrange(n, n + 4));
    assert(le_bytes(bw) =~= y.subrange(n, n + 4));
    assert(le_bytes(ah) =~= x.subrange(n + 4, n + 8));
    assert(le_bytes(bh) =~= y.subrange(n + 4, n + 8));
    assert(le_bytes(a_size.0.bits) =~= x.subrange(n + 8, n + 12));
    assert(le_bytes(b_size.0.bits) =~= y.subrange(n + 8, n + 12));
    assert(le_bytes(a_size.1.bits) =~= x.subrange(n + 12, n + 16));
    assert(le_bytes(b_size.1.bits) =~= y.subrange(n + 12, n + 16));
    assert(a_threshold == x[n + 16] && b_threshold == y[n + 16]);
    assert(le_bytes(a_epsilon.bits) =~= x.subrange(n + 17, n + 21));
    assert(le_bytes(b_epsilon.bits) =~= y.subrange(n + 17, n + 21));
    lemma_le_value(aw);
    lemma_le_value(bw);
    lemma_le_value(ah);
    lemma_le_value(bh);
    lemma_le_value(a_size.0.bits);
    lemma_le_value(b_size.0.bits);
    lemma_le_value(a_size.1.bits);
    lemma_le_value(b_size.1.bits);
    lemma_le_value(a_epsilon.bits);
    lemma_le_value(b_epsilon.bits);
}

} // verus!
