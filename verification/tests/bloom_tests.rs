use algors::bloom::Bloom;
use algors::hash::{XxHasher, XXH_SECRET_SIZE_MIN};
use rand::{thread_rng, Rng};

/// Helper to create a XxHasher for testing.
fn test_hasher() -> XxHasher {
    let secret = vec![0x42u8; XXH_SECRET_SIZE_MIN];
    XxHasher::new(secret)
}

/// Sizes a filter for `size_hint` items at false positive rate `p_false`:
/// `m = -(n ln p) / (ln 2)^2` bits, rounded up to whole words, and
/// `k = (m / n) ln 2` hash functions, rounded down, at least one.
fn with_hints(size_hint: usize, p_false: f64, hasher: XxHasher) -> Bloom<XxHasher> {
    let ln2 = std::f64::consts::LN_2;
    let m = (-((size_hint as f64) * p_false.ln()) / (ln2 * ln2)).ceil() as u64;
    let bits = Bloom::<XxHasher>::roundi_to_bits_type_size(m);
    let k = ((bits as f64 / size_hint as f64) * ln2).floor().max(1.0) as u32;
    Bloom::with_bits(bits, k, hasher)
}

#[test]
fn test_zero_false_negatives() {
    let mut bloom = with_hints(1000, 0.01, test_hasher());
    let mut items = Vec::new();
    let mut rng = thread_rng();

    // insert 500 random items and chek that they are all found
    for _ in 0..500 {
        let mut item = [0u8; 32];
        rng.fill(&mut item);
        bloom.insert(&item);
        items.push(item);
    }

    for item in items {
        assert!(
            bloom.contains(&item),
            "Bloom filter returned false negative for item {:?}",
            item
        );
    }
}

#[test]
fn test_statistical_false_positive_rate() {
    let n = 100_000;
    let p_target = 0.01;
    let mut bloom = with_hints(n, p_target, test_hasher());

    for i in 0..n {
        // fast way to generate unique strings
        bloom.insert(&i.to_le_bytes());
    }

    // check items that were definitely not inserted
    let mut false_positives = 0;
    for i in n..2 * n {
        if bloom.contains(&i.to_le_bytes()) {
            false_positives += 1;
        }
    }

    let actual_fpr = false_positives as f64 / n as f64;

    assert!(
        actual_fpr <= p_target * 1.2,
        "FPR too high: target {}, actual {} ({} hits)",
        p_target,
        actual_fpr,
        false_positives
    );

    // should also not be 0
    assert!(
        false_positives > 0,
        "FPR suspiciously low (0 hits); check hashing distribution"
    );
}

#[test]
fn test_large_capacity_overflow_safety() {
    // test that very low FPRs (which lead to very large bitsets)
    // don't cause overflows in index calculation.
    let size_hint = 1_000_000;
    let p_false = 0.000001;
    let bloom = with_hints(size_hint, p_false, test_hasher());

    let item = b"large_capacity_test";
    bloom.contains(item);

    // check that the bitset was actually sized up correctly
    assert!(bloom.bits_num() > size_hint as u64);
}

#[test]
fn test_hash_count_sanity() {
    // For n=1000, p=0.01, k should be approximately 7.
    let bloom = with_hints(1000, 0.01, test_hasher());
    assert!(bloom.hash_num() >= 6 && bloom.hash_num() <= 8);
}

#[test]
fn test_no_false_negatives_many_sizes() {
    let mut rng = thread_rng();
    for _ in 0..30 {
        let n = rng.gen_range(100..1000usize);
        let p = rng.gen_range(0.001..0.1f64);
        let count = rng.gen_range(10..50usize);
        let mut data = Vec::new();
        for _ in 0..count {
            let len = rng.gen_range(1..32usize);
            let item: Vec<u8> = (0..len).map(|_| rng.gen_range(0u8..255u8)).collect();
            data.push(item);
        }
        let mut bloom = with_hints(n, p, test_hasher());
        for item in &data {
            bloom.insert(item);
        }
        for item in &data {
            assert!(bloom.contains(item));
        }
    }
}

#[test]
fn test_rounding_to_words() {
    assert_eq!(Bloom::<XxHasher>::roundi_to_bits_type_size(0), 0);
    assert_eq!(Bloom::<XxHasher>::roundi_to_bits_type_size(1), 64);
    assert_eq!(Bloom::<XxHasher>::roundi_to_bits_type_size(64), 64);
    assert_eq!(Bloom::<XxHasher>::roundi_to_bits_type_size(65), 128);
    assert_eq!(Bloom::<XxHasher>::roundi_to_bits_type_size(9586), 9600);
}

#[test]
fn test_sizes_from_hints() {
    let bloom = with_hints(1000, 0.01, test_hasher());
    assert_eq!(bloom.bits_num(), 9600);
    assert_eq!(bloom.hash_num(), 6);
    let bloom = with_hints(100, 0.1, test_hasher());
    assert_eq!(bloom.bits_num(), 512);
    assert_eq!(bloom.hash_num(), 3);
}

#[test]
fn test_fresh_filter_holds_nothing() {
    let bloom = Bloom::with_bits(64, 3, test_hasher());
    assert!(!bloom.contains(b""));
    assert!(!bloom.contains(b"a"));
    assert!(!bloom.contains(b"anything at all"));
}

#[test]
fn test_no_hash_functions_reports_everything() {
    // with no hash function no bit is checked
    let bloom = Bloom::with_bits(64, 0, test_hasher());
    assert!(bloom.contains(b"x"));
}

#[test]
fn test_insert_is_monotone() {
    let mut bloom = Bloom::with_bits(128, 4, test_hasher());
    bloom.insert(b"one");
    assert!(bloom.contains(b"one"));
    for i in 0..100u32 {
        bloom.insert(&i.to_be_bytes());
        assert!(bloom.contains(b"one"));
    }
}

#[test]
fn test_hash_depends_on_data() {
    // one hash function over 65536 bits: another item rarely hits the bit
    let mut bloom = Bloom::with_bits(1 << 16, 1, test_hasher());
    bloom.insert(b"only");
    let hits = (0..1000u32).filter(|i| bloom.contains(&i.to_le_bytes())).count();
    assert!(hits < 10, "{} hits", hits);
}

#[test]
fn test_hash_depends_on_secret() {
    // the same items under two secrets set different bits
    let mut a = Bloom::with_bits(1 << 16, 1, test_hasher());
    let b_secret: Vec<u8> = (0..XXH_SECRET_SIZE_MIN as u32).map(|i| i as u8).collect();
    let mut b = Bloom::with_bits(1 << 16, 1, XxHasher::new(b_secret));
    for i in 0..64u32 {
        let item = i.to_le_bytes();
        a.insert(&item);
        b.insert(&item);
    }
    let words_at = 16 + 1 + 4 + 4 + XXH_SECRET_SIZE_MIN + 8;
    let ser_a = a.serialize().unwrap();
    let ser_b = b.serialize().unwrap();
    assert_eq!(ser_a.len(), ser_b.len());
    assert_ne!(ser_a[words_at..], ser_b[words_at..]);
}
