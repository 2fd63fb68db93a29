use flit::bits::BitStore;
use flit::error::CreationError;
use flit::index::indices_for_hash;
use flit::index::split_hash;
use flit::BloomFilter;

#[test]
fn test_num_bits_and_hashes() {
    // Target rate 0.01 = 1/100 for 216_553 items.
    let filter = BloomFilter::new(1, 100, 216_553).unwrap();

    assert_eq!(filter.bit_count(), 2_075_674);
    assert_eq!(filter.hash_function_count(), 7);
}

#[test]
fn test_derive_direct() {
    // The parameter deriver alone: 1% rate for 216_553 items gives the
    // reference geometry from the optimal-parameter formula.
    let (m, k) = flit::params::derive(1, 100, 216_553).unwrap();
    assert_eq!(m, 2_075_674);
    assert_eq!(k, 7);
    // Rounding is always up: 50% for 1 item needs ceil(1.44) = 2 bits.
    let (m, k) = flit::params::derive(1, 2, 1).unwrap();
    assert_eq!(m, 2);
    assert_eq!(k, 1);
}

#[test]
fn test_false_positive_rate_empty() {
    let filter = BloomFilter::new(1, 100, 216_553).unwrap();

    // False positive rate with nothing added to the filter should be 0.
    assert_eq!(filter.false_positive_rate(), 0);
}

#[test]
fn test_add() {
    // Target rate 0.03 = 3/100 for 10 items.
    let mut filter = BloomFilter::new(3, 100, 10).unwrap();

    filter.add("Hello, world!");

    assert!(filter.false_positive_rate() > 0);
    assert_eq!(filter.might_contain("Hello, world!"), true);
    assert_eq!(filter.might_contain("Dogs are cool!"), false);
}

#[test]
fn test_construction_validation() {
    // Rate of exactly 0 is rejected, naming the rate.
    match BloomFilter::new(0, 100, 10) {
        Err(CreationError::InvalidFalsePositiveRange(n, d)) => {
            assert_eq!((n, d), (0, 100));
        }
        _ => panic!("a zero rate must be rejected"),
    }
    // Rate of exactly 1 is rejected.
    match BloomFilter::new(100, 100, 10) {
        Err(CreationError::InvalidFalsePositiveRange(n, d)) => {
            assert_eq!((n, d), (100, 100));
        }
        _ => panic!("a rate of one must be rejected"),
    }
    // Rate above 1 is rejected.
    assert_eq!(
        BloomFilter::new(110, 100, 10).unwrap_err(),
        CreationError::InvalidFalsePositiveRange(110, 100)
    );
    // Zero estimated items is rejected, naming the count.
    assert_eq!(
        BloomFilter::new(50, 100, 0).unwrap_err(),
        CreationError::InvalidEstimatedItems(0)
    );
    // A rate strictly inside (0, 1) with a positive count succeeds.
    let filter = BloomFilter::new(50, 100, 10).unwrap();
    assert!(filter.bit_count() >= 1);
    assert!(filter.hash_function_count() >= 1);
    assert_eq!(filter.item_count(), 0);
}

#[test]
fn test_rate_growth_monotonic() {
    let mut filter = BloomFilter::new(1, 100, 20).unwrap();
    let names = [
        "ant", "bee", "cat", "dog", "eel", "fox", "gnu", "hen", "ibis", "jay",
    ];
    let mut last = filter.false_positive_rate();
    assert_eq!(last, 0);
    for name in names.iter() {
        filter.add(name);
        let rate = filter.false_positive_rate();
        assert!(rate >= last);
        last = rate;
    }
    assert!(last > 0);
    assert_eq!(filter.item_count(), 10);
}

#[test]
fn test_rate_exact_value_after_one_add() {
    // m = 73 bits and k = 6 hashes; one item gives
    // (1 - e^(-6/73))^6 ~ 2.4e-7, i.e. 1036 in units of 2^-32.
    let mut filter = BloomFilter::new(3, 100, 10).unwrap();
    assert_eq!(filter.bit_count(), 73);
    assert_eq!(filter.hash_function_count(), 6);
    filter.add("Hello, world!");
    assert_eq!(filter.false_positive_rate(), 1036);
}

#[test]
fn test_split_hash_halves() {
    assert_eq!(split_hash(0xDEAD_BEEF_1234_5678), (0xDEAD_BEEF, 0x1234_5678));
    assert_eq!(split_hash(0), (0, 0));
    assert_eq!(split_hash(u64::MAX), (u32::MAX, u32::MAX));
}

#[test]
fn test_indices_exact_values() {
    // (0xDEADBEEF + 0x12345678 * i) mod 2^32 mod 97 for i = 0..5.
    let mut it = indices_for_hash(split_hash(0xDEAD_BEEF_1234_5678), 97, 5);
    let mut got = Vec::new();
    while let Some(i) = it.next() {
        got.push(i);
    }
    assert_eq!(got, vec![40, 13, 48, 21, 91]);
}

#[test]
fn test_indices_determinism_and_range() {
    let hashes = [0u64, 1, u64::MAX, 0x0123_4567_89AB_CDEF, 42];
    for &h in hashes.iter() {
        let (m, k) = (73u64, 6u32);
        let mut first = Vec::new();
        let mut it = indices_for_hash(split_hash(h), m, k);
        while let Some(i) = it.next() {
            assert!(i < m);
            first.push(i);
        }
        assert_eq!(first.len(), k as usize);
        // Restarting the sequence yields the same positions again.
        let mut again = Vec::new();
        let mut it2 = indices_for_hash(split_hash(h), m, k);
        while let Some(i) = it2.next() {
            again.push(i);
        }
        assert_eq!(first, again);
    }
}

#[test]
fn test_no_false_negatives_under_later_adds() {
    let mut filter = BloomFilter::new(1, 100, 50).unwrap();
    let kept = ["alpha", "beta", "gamma", "delta"];
    for word in kept.iter() {
        filter.add(word);
        assert!(filter.might_contain(word));
    }
    for i in 0..40u32 {
        let other = format!("filler-{}", i);
        filter.add(&other);
        // Everything added earlier must still be reported present.
        for word in kept.iter() {
            assert!(filter.might_contain(word));
        }
    }
}

#[test]
fn test_add_same_item_twice() {
    let mut filter = BloomFilter::new(1, 100, 10).unwrap();
    filter.add("twice");
    filter.add("twice");
    assert_eq!(filter.item_count(), 2);
    assert!(filter.might_contain("twice"));
}

#[test]
fn test_hash_level_api() {
    let mut filter = BloomFilter::new(1, 100, 10).unwrap();
    let hashes = [7u64, 0, u64::MAX, 0xDEAD_BEEF_1234_5678];
    for &h in hashes.iter() {
        // A fresh filter has every bit clear, so nothing is contained yet.
        assert!(!filter.might_contain_hash(h));
    }
    for &h in hashes.iter() {
        filter.add_hash(h);
        assert!(filter.might_contain_hash(h));
    }
    for &h in hashes.iter() {
        assert!(filter.might_contain_hash(h));
    }
}

#[test]
fn test_near_one_rate_edge() {
    // A rate just under 1 shrinks the geometry to its floor of one bit and
    // one hash; the filter still works, it just saturates at once.
    let filter = BloomFilter::new(999_999_999, 1_000_000_000, 10).unwrap();
    assert_eq!(filter.bit_count(), 1);
    assert_eq!(filter.hash_function_count(), 1);
}

#[test]
fn test_rate_saturation_on_tiny_filter() {
    // One bit and one hash: after a single add the estimate is
    // 1 - e^(-1), which is 2_714_937_127 in units of 2^-32 — the
    // fixed-point pipeline agrees with the closed form to the last digit.
    let mut filter = BloomFilter::new(999_999_999, 1_000_000_000, 10).unwrap();
    filter.add("only");
    assert_eq!(filter.false_positive_rate(), 2_714_937_127);
    // Piling on items drives the estimate to its ceiling of exactly 1.
    for i in 0..60u32 {
        let item = format!("more-{}", i);
        filter.add(&item);
    }
    assert_eq!(filter.false_positive_rate(), 4_294_967_296);
    // And the one added item is still reported present.
    assert!(filter.might_contain("only"));
}

#[test]
fn test_bit_store() {
    let mut store = BitStore::new(130);
    assert_eq!(store.len(), 130);
    for i in 0..130 {
        assert!(!store.get(i));
    }
    store.set(0);
    store.set(64);
    store.set(129);
    for i in 0..130 {
        assert_eq!(store.get(i), i == 0 || i == 64 || i == 129);
    }
    // Setting an already-set bit changes nothing.
    store.set(64);
    assert!(store.get(64));
    assert!(!store.get(65));
}
