//! Seed derivation: every random stream derives from the global seed, a
//! stage name and a salt through the SplitMix64 mixer.

use vstd::prelude::*;
use vstd::string::StringSliceAdditionalSpecFns;
use vstd::wrapping::u64_specs;

verus! {

/// The SplitMix64 finalizer on one word.
pub open spec fn spec_splitmix64(x: u64) -> u64 {
    let a = u64_specs::wrapping_add(x, 0x9E37_79B9_7F4A_7C15u64);
    let b = u64_specs::wrapping_mul(a ^ (a >> 30u64), 0xBF58_476D_1CE4_E5B9u64);
    let c = u64_specs::wrapping_mul(b ^ (b >> 27u64), 0x94D0_49BB_1331_11EBu64);
    c ^ (c >> 31u64)
}

/// SplitMix64 finalizer-style mixer; the base primitive for all hashing
/// that reaches simulation state.
pub fn splitmix64(x: u64) -> (r: u64)
    ensures
        r == spec_splitmix64(x),
{
    let mut x = x;
    x = x.wrapping_add(0x9E37_79B9_7F4A_7C15);
    x = (x ^ (x >> 30)).wrapping_mul(0xBF58_476D_1CE4_E5B9);
    x = (x ^ (x >> 27)).wrapping_mul(0x94D0_49BB_1331_11EB);
    x ^ (x >> 31)
}

/// Mixing the stage name byte by byte into the running state `h`.
pub open spec fn spec_mix_bytes(h: u64, bytes: Seq<u8>) -> u64
    decreases bytes.len(),
{
    if bytes.len() == 0 {
        h
    } else {
        spec_mix_bytes(spec_splitmix64(h ^ (bytes[0] as u64)), bytes.drop_first())
    }
}

/// The derived sub-seed for `(stage, salt)` under `global_seed`, over the
/// UTF-8 bytes of the stage name.
pub open spec fn spec_derive(global_seed: u64, stage_bytes: Seq<u8>, salt: u64) -> u64 {
    let h0 = spec_splitmix64(global_seed ^ 0x5851_F42D_4C95_7F2Du64);
    spec_splitmix64(spec_mix_bytes(h0, stage_bytes) ^ salt)
}

proof fn lemma_mix_bytes_push(h: u64, bytes: Seq<u8>, b: u8)
    ensures
        spec_mix_bytes(h, bytes.push(b)) == spec_splitmix64(spec_mix_bytes(h, bytes) ^ (b as u64)),
    decreases bytes.len(),
{
    if bytes.len() == 0 {
        assert(bytes.push(b).drop_first() =~= Seq::<u8>::empty());
        assert(bytes.push(b)[0] == b);
        assert(spec_mix_bytes(h, bytes) == h);
        assert(spec_mix_bytes(spec_splitmix64(h ^ (b as u64)), Seq::<u8>::empty()) == spec_splitmix64(h ^ (b as u64)));
    } else {
        assert(bytes.push(b)[0] == bytes[0]);
        let h1 = spec_splitmix64(h ^ (bytes[0] as u64));
        assert(bytes.push(b).drop_first() =~= bytes.drop_first().push(b));
        lemma_mix_bytes_push(h1, bytes.drop_first(), b);
    }
}

/// Derive a sub-seed for `(stage, salt)` from the global seed.
pub fn derive(global_seed: u64, stage: &str, salt: u64) -> (r: u64)
    ensures
        r == spec_derive(global_seed, stage.spec_bytes(), salt),
{
    let bytes = stage.as_bytes();
    let mut h = splitmix64(global_seed ^ 0x5851_F42D_4C95_7F2D);
    let ghost h0 = h;
    let mut i: usize = 0;
    while i < bytes.len()
        invariant
            i <= bytes@.len(),
            bytes@ == stage.spec_bytes(),
            h0 == spec_splitmix64(global_seed ^ 0x5851_F42D_4C95_7F2Du64),
            h == spec_mix_bytes(h0, bytes@.subrange(0, i as int)),
        decreases bytes@.len() - i,
    {
        let b = bytes[i];
        proof {
            lemma_mix_bytes_push(h0, bytes@.subrange(0, i as int), b);
            assert(bytes@.subrange(0, i as int).push(b) =~= bytes@.subrange(0, i + 1));
        }
        h = splitmix64(h ^ (b as u64));
        i = i + 1;
    }
    proof {
        assert(bytes@.subrange(0, bytes@.len() as int) =~= bytes@);
    }
    splitmix64(h ^ salt)
}

/// The number of 64-bit words.
pub open spec fn word_span() -> int {
    0x1_0000_0000_0000_0000
}

/// Multiplying by `c` and then by `ci`, modulo 2^64, gives `x` back when
/// `c * ci` is 1 modulo 2^64.
pub proof fn lemma_mul_inverse(x: int, c: int, ci: int, k: int)
    requires
        0 <= x < word_span(),
        c * ci == 1 + k * word_span(),
    ensures
        ((x * c) % word_span()) * ci % word_span() == x,
{
    let m = word_span();
    vstd::arithmetic::div_mod::lemma_mul_mod_noop_left(x * c, ci, m);
    assert((x * c) * ci == m * (x * k) + x) by (nonlinear_arith)
        requires
            c * ci == 1 + k * m,
    ;
    vstd::arithmetic::div_mod::lemma_mod_multiples_vanish(x * k, x, m);
    vstd::arithmetic::div_mod::lemma_small_mod(x as nat, m as nat);
}

/// Multiplication by one of the mixer's odd constants is one-to-one on
/// 64-bit words.
proof fn lemma_mul_odd_injective(a: u64, b: u64, c: u64)
    requires
        c == 0xBF58_476D_1CE4_E5B9u64 || c == 0x94D0_49BB_1331_11EBu64 || c == 0x9E37_79B9_7F4A_7C15u64,
        u64_specs::wrapping_mul(a, c) == u64_specs::wrapping_mul(b, c),
    ensures
        a == b,
{
    let m = word_span();
    let (ci, k): (int, int) = if c == 0xBF58_476D_1CE4_E5B9u64 {
        (0x96de1b173f119089, 8125545580553827436)
    } else if c == 0x94D0_49BB_1331_11EBu64 {
        (0x319642b2d24d8ec3, 2077064247507883091)
    } else {
        (0xf1de83e19937733d, 10771413168148108919)
    };
    assert(c * ci == 1 + k * m);
    lemma_mul_inverse(a as int, c as int, ci, k);
    lemma_mul_inverse(b as int, c as int, ci, k);
    assert((a as int * c as int) % m == (b as int * c as int) % m);
}

/// The mixer's xor-shift steps are one-to-one.
proof fn lemma_xorshift_injective(a: u64, b: u64)
    ensures
        (a ^ (a >> 30u64)) == (b ^ (b >> 30u64)) ==> a == b,
        (a ^ (a >> 27u64)) == (b ^ (b >> 27u64)) ==> a == b,
        (a ^ (a >> 31u64)) == (b ^ (b >> 31u64)) ==> a == b,
{
    assert((a ^ (a >> 30u64)) == (b ^ (b >> 30u64)) ==> a == b) by (bit_vector);
    assert((a ^ (a >> 27u64)) == (b ^ (b >> 27u64)) ==> a == b) by (bit_vector);
    assert((a ^ (a >> 31u64)) == (b ^ (b >> 31u64)) ==> a == b) by (bit_vector);
}

/// SplitMix64 is one-to-one: distinct words never mix to the same word.
pub proof fn lemma_splitmix64_injective(x: u64, y: u64)
    ensures
        spec_splitmix64(x) == spec_splitmix64(y) ==> x == y,
{
    if spec_splitmix64(x) == spec_splitmix64(y) {
        let ax = u64_specs::wrapping_add(x, 0x9E37_79B9_7F4A_7C15u64);
        let ay = u64_specs::wrapping_add(y, 0x9E37_79B9_7F4A_7C15u64);
        let bx = u64_specs::wrapping_mul(ax ^ (ax >> 30u64), 0xBF58_476D_1CE4_E5B9u64);
        let by = u64_specs::wrapping_mul(ay ^ (ay >> 30u64), 0xBF58_476D_1CE4_E5B9u64);
        let cx = u64_specs::wrapping_mul(bx ^ (bx >> 27u64), 0x94D0_49BB_1331_11EBu64);
        let cy = u64_specs::wrapping_mul(by ^ (by >> 27u64), 0x94D0_49BB_1331_11EBu64);
        lemma_xorshift_injective(cx, cy);
        lemma_mul_odd_injective(bx ^ (bx >> 27u64), by ^ (by >> 27u64), 0x94D0_49BB_1331_11EBu64);
        lemma_xorshift_injective(bx, by);
        lemma_mul_odd_injective(ax ^ (ax >> 30u64), ay ^ (ay >> 30u64), 0xBF58_476D_1CE4_E5B9u64);
        lemma_xorshift_injective(ax, ay);
    }
}

/// Mixing the same stage bytes into distinct states gives distinct states.
proof fn lemma_mix_bytes_injective(h1: u64, h2: u64, bytes: Seq<u8>)
    ensures
        spec_mix_bytes(h1, bytes) == spec_mix_bytes(h2, bytes) ==> h1 == h2,
    decreases bytes.len(),
{
    if bytes.len() > 0 {
        let b = bytes[0] as u64;
        lemma_mix_bytes_injective(spec_splitmix64(h1 ^ b), spec_splitmix64(h2 ^ b), bytes.drop_first());
        lemma_splitmix64_injective(h1 ^ b, h2 ^ b);
        assert((h1 ^ b) == (h2 ^ b) ==> h1 == h2) by (bit_vector);
    }
}

/// For one stage, distinct salts give distinct sub-seeds, and distinct
/// global seeds give distinct sub-seeds.
pub proof fn lemma_derive_injective(g1: u64, g2: u64, stage_bytes: Seq<u8>, salt1: u64, salt2: u64)
    ensures
        salt1 != salt2 ==> spec_derive(g1, stage_bytes, salt1) != spec_derive(g1, stage_bytes, salt2),
        g1 != g2 ==> spec_derive(g1, stage_bytes, salt1) != spec_derive(g2, stage_bytes, salt1),
{
    let k = 0x5851_F42D_4C95_7F2Du64;
    let m1 = spec_mix_bytes(spec_splitmix64(g1 ^ k), stage_bytes);
    let m2 = spec_mix_bytes(spec_splitmix64(g2 ^ k), stage_bytes);
    lemma_splitmix64_injective(m1 ^ salt1, m1 ^ salt2);
    assert((m1 ^ salt1) == (m1 ^ salt2) ==> salt1 == salt2) by (bit_vector);
    lemma_splitmix64_injective(m1 ^ salt1, m2 ^ salt1);
    assert((m1 ^ salt1) == (m2 ^ salt1) ==> m1 == m2) by (bit_vector);
    lemma_mix_bytes_injective(spec_splitmix64(g1 ^ k), spec_splitmix64(g2 ^ k), stage_bytes);
    lemma_splitmix64_injective(g1 ^ k, g2 ^ k);
    assert((g1 ^ k) == (g2 ^ k) ==> g1 == g2) by (bit_vector);
}

} // verus!
