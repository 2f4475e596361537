//! A shuffle that its seed decides: splitmix64 numbers drive a Fisher-Yates pass.

use vstd::prelude::*;

verus! {

/// What the state grows by from one number to the next.
pub const GAMMA: u64 = 0x9e37_79b9_7f4a_7c15;

pub const MIX_A: u64 = 0xbf58_476d_1ce4_e5b9;

pub const MIX_B: u64 = 0x94d0_49bb_1331_11eb;

/// The state after `state`.
pub open spec fn advanced(state: u64) -> u64 {
    ((state + GAMMA) % 0x1_0000_0000_0000_0000) as u64
}

/// The low 64 bits of a product.
pub open spec fn low_product(a: u64, b: u64) -> u64 {
    ((a as int * b as int) % 0x1_0000_0000_0000_0000) as u64
}

/// The number that a state stands for.
pub open spec fn mixed(state: u64) -> u64 {
    let a = low_product(state ^ (state >> 30), MIX_A);
    let b = low_product(a ^ (a >> 27), MIX_B);
    b ^ (b >> 31)
}

/// `s` with the entries at `i` and `j` exchanged.
pub open spec fn exchanged<T>(s: Seq<T>, i: int, j: int) -> Seq<T> {
    s.update(i, s[j]).update(j, s[i])
}

/// `s` with its places from `i` down to 1 drawn in turn, each from those up to it.
pub open spec fn drawn<T>(s: Seq<T>, state: u64, i: int) -> Seq<T>
    decreases i,
{
    if i < 1 {
        s
    } else {
        let next = advanced(state);
        drawn(exchanged(s, i, mixed(next) as int % (i + 1)), next, i - 1)
    }
}

/// `s` as `seed` shuffles it.
pub open spec fn shuffled<T>(s: Seq<T>, seed: u64) -> Seq<T> {
    drawn(s, seed, s.len() - 1)
}

fn advance(state: u64) -> (r: u64)
    ensures
        r == advanced(state),
{
    state.wrapping_add(GAMMA)
}

fn mix(state: u64) -> (r: u64)
    ensures
        r == mixed(state),
{
    let a = (state ^ (state >> 30)).wrapping_mul(MIX_A);
    let b = (a ^ (a >> 27)).wrapping_mul(MIX_B);
    b ^ (b >> 31)
}

/// Deterministic in-place shuffle, reproducible from `seed`.
pub fn shuffle<T: Copy>(items: &mut Vec<T>, seed: u64)
    ensures
        final(items)@ == shuffled(old(items)@, seed),
{
    let n = items.len();
    if n == 0 {
        return ;
    }
    let mut state: u64 = seed;
    let mut i: usize = n - 1;
    while i >= 1
        invariant
            i < n,
            n == items@.len(),
            drawn(items@, state, i as int) == shuffled(old(items)@, seed),
        decreases i,
    {
        state = advance(state);
        let j: usize = (mix(state) % (i as u64 + 1)) as usize;
        let a = items[i];
        let b = items[j];
        items.set(i, b);
        items.set(j, a);
        i -= 1;
    }
}

/// A shuffle keeps what it shuffles: every entry, as often as it stood there.
pub proof fn law_shuffle_keeps_entries<T>(s: Seq<T>, seed: u64)
    ensures
        shuffled(s, seed).to_multiset() == s.to_multiset(),
        shuffled(s, seed).len() == s.len(),
{
    lemma_drawn_keeps(s, seed, s.len() - 1);
}

proof fn lemma_exchanged_keeps<T>(s: Seq<T>, i: int, j: int)
    requires
        0 <= i < s.len(),
        0 <= j < s.len(),
    ensures
        exchanged(s, i, j).to_multiset() == s.to_multiset(),
{
    broadcast use vstd::multiset::group_multiset_axioms;
    broadcast use vstd::seq_lib::group_to_multiset_ensures;

    let t = s.update(i, s[j]);
    vstd::seq_lib::to_multiset_update(s, i, s[j]);
    vstd::seq_lib::to_multiset_update(t, j, s[i]);
    assert(s.to_multiset().count(s[i]) > 0);
    assert(exchanged(s, i, j).to_multiset() =~= s.to_multiset());
}

proof fn lemma_drawn_keeps<T>(s: Seq<T>, state: u64, i: int)
    requires
        i < s.len(),
    ensures
        drawn(s, state, i).to_multiset() == s.to_multiset(),
        drawn(s, state, i).len() == s.len(),
    decreases i,
{
    if i >= 1 {
        let next = advanced(state);
        let j = mixed(next) as int % (i + 1);
        assert(0 <= j < i + 1);
        lemma_exchanged_keeps(s, i, j);
        lemma_drawn_keeps(exchanged(s, i, j), next, i - 1);
    }
}

/// A shuffle goes by places, not by what stands there: shuffling and renaming can be
/// exchanged.
pub proof fn law_shuffle_goes_by_places<T, U>(s: Seq<T>, seed: u64, f: spec_fn(T) -> U)
    ensures
        shuffled(s.map_values(f), seed) == shuffled(s, seed).map_values(f),
{
    lemma_drawn_renamed(s, seed, s.len() - 1, f);
}

proof fn lemma_drawn_renamed<T, U>(s: Seq<T>, state: u64, i: int, f: spec_fn(T) -> U)
    requires
        i < s.len(),
    ensures
        drawn(s.map_values(f), state, i) == drawn(s, state, i).map_values(f),
    decreases i,
{
    if i >= 1 {
        let next = advanced(state);
        let j = mixed(next) as int % (i + 1);
        assert(0 <= j < i + 1);
        let t = exchanged(s, i, j);
        assert(t.map_values(f) =~= exchanged(s.map_values(f), i, j));
        lemma_drawn_renamed(t, next, i - 1, f);
    }
}

/// What is drawn leaves the places above alone.
proof fn lemma_drawn_above<T>(s: Seq<T>, state: u64, i: int, p: int)
    requires
        i < p < s.len(),
    ensures
        drawn(s, state, i)[p] == s[p],
    decreases i,
{
    if i >= 1 {
        let next = advanced(state);
        let j = mixed(next) as int % (i + 1);
        assert(0 <= j < i + 1);
        lemma_drawn_above(exchanged(s, i, j), next, i - 1, p);
    }
}

/// The number that stands for the state 0, and the one for the state after another seed.
proof fn lemma_two_numbers()
    ensures
        mixed(advanced(0x61c8_8646_80b5_83eb)) == 0,
        mixed(advanced(0xf836_4607_e9c9_49bd)) == 1,
{
    assert(0u64 ^ (0u64 >> 30) == 0u64) by (bit_vector);
    assert(0u64 ^ (0u64 >> 27) == 0u64) by (bit_vector);
    assert(0u64 ^ (0u64 >> 31) == 0u64) by (bit_vector);
    assert(0x966d_bfc1_6913_c5d2u64 ^ (0x966d_bfc1_6913_c5d2u64 >> 30)
        == 0x966d_bfc3_30a5_3ad7u64) by (bit_vector);
    assert(0x3196_42b4_e085_d85fu64 ^ (0x3196_42b4_e085_d85fu64 >> 27)
        == 0x3196_42b2_d24d_8ec3u64) by (bit_vector);
    assert(1u64 ^ (1u64 >> 31) == 1u64) by (bit_vector);
    assert(advanced(0x61c8_8646_80b5_83eb) == 0);
    assert(advanced(0xf836_4607_e9c9_49bd) == 0x966d_bfc1_6913_c5d2);
    assert(low_product(0, MIX_A) == 0 && low_product(0, MIX_B) == 0);
    assert(low_product(0x966d_bfc3_30a5_3ad7, MIX_A) == 0x3196_42b4_e085_d85f);
    assert(low_product(0x3196_42b2_d24d_8ec3, MIX_B) == 1);
}

/// What is drawn first stands last.
proof fn lemma_first_draw<T>(s: Seq<T>, seed: u64, j: int)
    requires
        s.len() >= 2,
        0 <= j < s.len(),
        mixed(advanced(seed)) == j,
    ensures
        shuffled(s, seed).len() == s.len(),
        shuffled(s, seed).last() == s[j],
{
    let i = s.len() - 1;
    let next = advanced(seed);
    vstd::arithmetic::div_mod::lemma_small_mod(j as nat, (i + 1) as nat);
    assert(mixed(next) as int % (i + 1) == j);
    let t = exchanged(s, i, j);
    assert(shuffled(s, seed) == drawn(t, next, i - 1));
    lemma_drawn_above(t, next, i - 1, i);
    law_shuffle_keeps_entries(s, seed);
    assert(t[i] == s[j]);
}

/// The seed decides the order: of any two entries or more, one seed puts the first last and
/// another the second.
pub proof fn law_seed_decides<T>(s: Seq<T>)
    requires
        s.len() >= 2,
    ensures
        exists|seed: u64| (#[trigger] shuffled(s, seed)).last() == s[0],
        exists|seed: u64| (#[trigger] shuffled(s, seed)).last() == s[1],
{
    lemma_two_numbers();
    lemma_first_draw(s, 0x61c8_8646_80b5_83eb, 0);
    lemma_first_draw(s, 0xf836_4607_e9c9_49bd, 1);
}

} // verus!
