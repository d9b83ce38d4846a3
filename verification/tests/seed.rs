use via::bench::Rng;
use via::noise::hash2;
use via::seed;
use via::seed::splitmix64;

#[test]
fn distinct_stages_distinct_seeds() {
    assert_ne!(seed::derive(1, "terrain", 0), seed::derive(1, "hydrology", 0));
    assert_ne!(seed::derive(1, "terrain", 0), seed::derive(1, "terrain", 1));
    assert_ne!(seed::derive(1, "terrain", 0), seed::derive(2, "terrain", 0));
}

#[test]
fn stable_values() {
    // Locked: changing seed derivation invalidates every golden snapshot.
    assert_eq!(seed::derive(42, "terrain", 0), seed::derive(42, "terrain", 0));
}

#[test]
fn splitmix64_reference_values() {
    // The published SplitMix64 sequence from state 0: the first output
    // mixes 0 + golden gamma.
    assert_eq!(splitmix64(0), 0xE220_A839_7B1D_CDAF);
    // The stream advances its state before mixing, so its first draw is
    // the sequence's second value.
    let mut rng = Rng::new(0);
    assert_eq!(rng.next_u64(), 0x6E78_9E6A_A1B9_65F4);
    assert_eq!(rng.next_u64(), splitmix64(0x9E37_79B9_7F4A_7C15u64.wrapping_mul(2)));
}

#[test]
fn derive_follows_the_byte_fold() {
    let mut h = splitmix64(7 ^ 0x5851_F42D_4C95_7F2D);
    for &b in "ab".as_bytes() {
        h = splitmix64(h ^ (b as u64));
    }
    assert_eq!(seed::derive(7, "ab", 3), splitmix64(h ^ 3));
}

#[test]
fn lattice_hash_depends_on_each_coordinate() {
    let h = hash2(5, -3, 4);
    let x = (-3i64 as u64).wrapping_mul(0x9E37_79B9_7F4A_7C15);
    let y = (4i64 as u64).wrapping_mul(0xC2B2_AE3D_27D4_EB4F);
    assert_eq!(h, splitmix64(splitmix64(5 ^ x) ^ y));
    assert_ne!(hash2(5, -3, 4), hash2(5, 4, -3));
    assert_ne!(hash2(5, -3, 4), hash2(6, -3, 4));
}

#[test]
fn nearby_inputs_never_collide_in_the_mixer() {
    let outs: Vec<u64> = (0u64..64).map(splitmix64).collect();
    for a in 0..outs.len() {
        for b in 0..a {
            assert_ne!(outs[a], outs[b]);
        }
    }
}

#[test]
fn salts_and_global_seeds_give_distinct_sub_seeds() {
    let by_salt: Vec<u64> = (0u64..16).map(|s| seed::derive(9, "flow", s)).collect();
    let by_global: Vec<u64> = (0u64..16).map(|g| seed::derive(g, "flow", 9)).collect();
    for a in 0..16 {
        for b in 0..a {
            assert_ne!(by_salt[a], by_salt[b]);
            assert_ne!(by_global[a], by_global[b]);
        }
    }
}

#[test]
fn a_stream_does_not_repeat_early() {
    let mut rng = Rng::new(12345);
    let outs: Vec<u64> = (0..256).map(|_| rng.next_u64()).collect();
    let mut sorted = outs.clone();
    sorted.sort_unstable();
    sorted.dedup();
    assert_eq!(sorted.len(), outs.len());
}
