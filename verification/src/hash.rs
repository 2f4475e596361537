//! A small hash that stays the same from release to release, so that content hashes
//! remain comparable over time.

use vstd::prelude::*;

verus! {

/// The hash of nothing.
pub const FNV_OFFSET: u64 = 0xcbf2_9ce4_8422_2325;

/// What every step multiplies by.
pub const FNV_PRIME: u64 = 0x0000_0100_0000_01b3;

/// FNV-1a (64-bit) of `bytes`: for each byte in turn, exclusive or, then multiply.
pub open spec fn fnv(bytes: Seq<u8>) -> u64
    decreases bytes.len(),
{
    if bytes.len() == 0 {
        FNV_OFFSET
    } else {
        (((fnv(bytes.drop_last()) ^ (bytes.last() as u64)) as int * FNV_PRIME as int)
            % 0x1_0000_0000_0000_0000) as u64
    }
}

/// FNV-1a (64-bit) over `bytes`.
pub fn fnv1a(bytes: &[u8]) -> (r: u64)
    ensures
        r == fnv(bytes@),
{
    let mut hash: u64 = FNV_OFFSET;
    let mut i: usize = 0;
    while i < bytes.len()
        invariant
            i <= bytes@.len(),
            hash == fnv(bytes@.take(i as int)),
        decreases bytes@.len() - i,
    {
        hash = (hash ^ (bytes[i] as u64)).wrapping_mul(FNV_PRIME);
        i += 1;
        assert(bytes@.take(i as int).drop_last() =~= bytes@.take(i - 1));
    }
    assert(bytes@.take(i as int) =~= bytes@);
    hash
}

/// One step of the hash.
spec fn step(hash: u64, byte: u8) -> u64 {
    (((hash ^ (byte as u64)) as int * FNV_PRIME as int) % 0x1_0000_0000_0000_0000) as u64
}

/// A step loses nothing: it can be undone.
proof fn lemma_step_injective(g: u64, a: u8, h: u64, b: u8)
    requires
        step(g, a) == step(h, b),
    ensures
        g ^ (a as u64) == h ^ (b as u64),
{
    let (x, y) = (g ^ (a as u64), h ^ (b as u64));
    lemma_odd_product(x);
    lemma_odd_product(y);
}

/// The product with the prime can be divided by it again.
proof fn lemma_odd_product(x: u64)
    ensures
        ({
            let p = ((x as int * FNV_PRIME as int) % 0x1_0000_0000_0000_0000) as u64;
            (p as int * 0xce96_5057_aff6_957b) % 0x1_0000_0000_0000_0000 == x
        }),
{
    let m = 0x1_0000_0000_0000_0000int;
    let (prime, back) = (FNV_PRIME as int, 0xce96_5057_aff6_957bint);
    let p = (x as int * prime) % m;
    vstd::arithmetic::div_mod::lemma_mul_mod_noop_left(x as int * prime, back, m);
    assert((p * back) % m == ((x as int * prime) * back) % m);
    assert((x as int * prime) * back == x as int * (prime * back)) by (nonlinear_arith);
    assert((prime * back) % m == 1);
    vstd::arithmetic::div_mod::lemma_mul_mod_noop_right(x as int, prime * back, m);
    assert((x as int * (prime * back)) % m == (x as int * 1) % m);
    vstd::arithmetic::div_mod::lemma_small_mod(x as nat, m as nat);
}

/// Every byte counts: two contents that differ in one byte have different hashes, wherever
/// it stands.
pub proof fn law_every_byte_counts(before: Seq<u8>, a: u8, b: u8, behind: Seq<u8>)
    requires
        a != b,
    ensures
        fnv(before.push(a) + behind) != fnv(before.push(b) + behind),
    decreases behind.len(),
{
    if behind.len() == 0 {
        assert(before.push(a) + behind =~= before.push(a));
        assert(before.push(b) + behind =~= before.push(b));
        assert(before.push(a).drop_last() =~= before);
        assert(before.push(b).drop_last() =~= before);
        let h = fnv(before);
        if step(h, a) == step(h, b) {
            lemma_step_injective(h, a, h, b);
            assert(h ^ (a as u64) == h ^ (b as u64) ==> a == b) by (bit_vector);
        }
    } else {
        let rest = behind.drop_last();
        law_every_byte_counts(before, a, b, rest);
        assert((before.push(a) + behind).drop_last() =~= before.push(a) + rest);
        assert((before.push(b) + behind).drop_last() =~= before.push(b) + rest);
        let (g, h, c) = (fnv(before.push(a) + rest), fnv(before.push(b) + rest), behind.last());
        if step(g, c) == step(h, c) {
            lemma_step_injective(g, c, h, c);
            assert(g ^ (c as u64) == h ^ (c as u64) ==> g == h) by (bit_vector);
        }
    }
}

} // verus!
