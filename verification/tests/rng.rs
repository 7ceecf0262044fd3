//! The timeout generator.

use raft_io::rng::Rng;

#[test]
fn test_same_seed_yields_same_stream() {
    let mut a = Rng::new(42);
    let mut b = Rng::new(42);
    for _ in 0..32 {
        assert_eq!(a.next_u64(), b.next_u64());
    }
}

#[test]
fn test_different_seeds_diverge() {
    let mut a = Rng::new(1);
    let mut b = Rng::new(2);
    assert_ne!(a.next_u64(), b.next_u64());
}

#[test]
fn test_gen_range_stays_within_bounds() {
    let mut r = Rng::new(7);
    for _ in 0..10_000 {
        let v = r.gen_range(150, 300);
        assert!((150..=300).contains(&v));
    }
}

#[test]
fn test_gen_range_degenerate_returns_min() {
    let mut r = Rng::new(7);
    assert_eq!(r.gen_range(10, 10), 10);
    assert_eq!(r.gen_range(10, 5), 10);
}

#[test]
fn test_gen_range_covers_both_endpoints() {
    let mut r = Rng::new(99);
    let mut seen_min = false;
    let mut seen_max = false;
    for _ in 0..10_000 {
        match r.gen_range(0, 3) {
            0 => seen_min = true,
            3 => seen_max = true,
            _ => {}
        }
    }
    assert!(seen_min && seen_max);
}

/// The published first outputs of SplitMix64 from seed zero.
#[test]
fn stream_from_seed_zero_is_splitmix64() {
    let mut r = Rng::new(0);
    assert_eq!(r.next_u64(), 0xE220_A839_7B1D_CDAF);
    assert_eq!(r.next_u64(), 0x6E78_9E6A_A1B9_65F4);
    assert_eq!(r.next_u64(), 0x06C4_5D18_8009_454F);
}

#[test]
fn whole_range_and_clone() {
    let mut r = Rng::new(3);
    let mut c = r.clone();
    assert_eq!(r.gen_range(0, u32::MAX), c.gen_range(0, u32::MAX));
}
