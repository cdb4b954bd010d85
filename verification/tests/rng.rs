use nn::rng::SplitMix64;

#[test]
fn same_seed_same_sequence() {
    let mut a = SplitMix64::seeded(42);
    let mut b = SplitMix64::seeded(42);
    for _ in 0..100 {
        assert_eq!(a.next_u32(), b.next_u32());
    }
}

#[test]
fn splitmix64_matches_canonical_known_vectors() {
    let mut r = SplitMix64::seeded(0);
    assert_eq!(r.next_u64(), 0x6e78_9e6a_a1b9_65f4);
    assert_eq!(r.next_u64(), 0x06c4_5d18_8009_454f);
    assert_eq!(r.next_u64(), 0xf88b_b8a8_724c_81ec);
    let mut r32 = SplitMix64::seeded(0);
    assert_eq!(r32.next_u32(), 0x6e78_9e6a);
}

#[test]
fn rng_different_seeds_diverge() {
    let mut a = SplitMix64::seeded(42);
    let mut b = SplitMix64::seeded(43);
    let mut diff = 0;
    for _ in 0..100 {
        if a.next_u32() != b.next_u32() {
            diff += 1;
        }
    }
    assert!(diff > 90, "expected most samples to differ, got {diff}/100");
}

#[test]
fn next_u32_is_high_half_of_next_u64() {
    let mut a = SplitMix64::seeded(7);
    let mut b = SplitMix64::seeded(7);
    for _ in 0..50 {
        let hi = (a.next_u64() >> 32) as u32;
        assert_eq!(hi, b.next_u32());
    }
}

#[test]
fn clone_continues_the_same_stream() {
    let mut a = SplitMix64::seeded(123);
    a.next_u64();
    let mut b = a.clone();
    for _ in 0..20 {
        assert_eq!(a.next_u64(), b.next_u64());
    }
}

#[test]
fn seeded_state_advances_by_gamma() {
    // seeded(s) starts at s + GAMMA, so the first output of seeded(s) equals
    // the second output of the stream that starts one step earlier.
    let mut a = SplitMix64::seeded(0);
    a.next_u64();
    let second = a.next_u64();
    let mut b = SplitMix64::seeded(nn::rng::GAMMA);
    assert_eq!(b.next_u64(), second);
}

#[test]
fn distinct_seeds_never_share_a_64_bit_output() {
    let mut a = SplitMix64::seeded(42);
    let mut b = SplitMix64::seeded(43);
    for _ in 0..1000 {
        assert_ne!(a.next_u64(), b.next_u64());
    }
}
