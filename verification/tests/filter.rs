use bloom_filter_simple::bitset::Bitset;
use bloom_filter_simple::BloomFilter;

/// Sizing from target capacity and false-positive probability:
/// m = ceil((n * ln(p)) / ln(1 / 2^ln(2))), k = round((m / n) * ln(2)),
/// span = ceil(m / k), with k and span clamped to at least 1.
fn sizing(capacity: usize, false_positive_probability: f64) -> (usize, usize) {
    assert!(capacity > 0);
    assert!(false_positive_probability > 0.0 && false_positive_probability < 1.0);
    let bit_count = ((capacity as f64 * false_positive_probability.ln()) / -0.48045301391).ceil();
    let hash_count = ((bit_count / capacity as f64) * 0.693147).round() as usize;
    let hash_count = hash_count.max(1);
    let per_hash_span = (bit_count / hash_count as f64).ceil() as usize;
    let per_hash_span = per_hash_span.max(1);
    (hash_count, per_hash_span)
}

fn estimate(filter: &BloomFilter) -> f64 {
    let load = filter.element_count() as f64 / filter.per_hash_span() as f64;
    (1.0 - std::f64::consts::E.powf(-load)).powf(filter.hash_count() as f64)
}

fn item_bytes(i: u64) -> Vec<u8> {
    i.to_le_bytes().to_vec()
}

#[test]
fn empty_filter_reports_absent() {
    let (hash_count, span) = sizing(100, 0.01);
    let filter = BloomFilter::with_params(hash_count, span);
    for i in 0..200u64 {
        assert!(!filter.check(&item_bytes(i)));
    }
    assert_eq!(filter.element_count(), 0);
}

#[test]
fn no_false_negatives_scenario() {
    let (hash_count, span) = sizing(100, 0.01);
    let mut filter = BloomFilter::with_params(hash_count, span);
    for i in 0..100u64 {
        filter.insert(&item_bytes(i));
    }
    for i in 0..100u64 {
        assert!(filter.check(&item_bytes(i)));
    }
    let p = estimate(&filter);
    assert!(p > 0.005 && p < 0.02, "estimate {} not within 2x of 0.01", p);
    assert!(p > 0.0095 && p < 0.0105, "estimate {} far from formula value", p);
}

#[test]
fn capacity_formula_1000() {
    let bit_count = ((1000f64 * 0.01f64.ln()) / -0.48045301391).ceil();
    assert_eq!(bit_count as usize, 9586);
    let (hash_count, span) = sizing(1000, 0.01);
    assert_eq!(hash_count, 7);
    assert_eq!(span, 1370);
    let filter = BloomFilter::with_params(hash_count, span);
    assert_eq!(filter.hash_count(), 7);
    assert_eq!(filter.per_hash_span(), 1370);
    assert_eq!(filter.bit_count(), 7 * 1370);
}

#[test]
fn index_partition() {
    let digests = [
        (0u64, 0u64),
        (1, 1),
        (u64::MAX, u64::MAX),
        (u64::MAX, 1),
        (12345678901234567, 98765432109876543),
    ];
    for span in [1usize, 7, 137, 1370] {
        for i in 0..7usize {
            for (a, b) in digests {
                let idx = BloomFilter::index(i, span, a, b);
                assert!(i * span <= idx && idx < (i + 1) * span);
            }
        }
    }
}

#[test]
fn estimate_monotonic() {
    let (hash_count, span) = sizing(50, 0.01);
    let mut filter = BloomFilter::with_params(hash_count, span);
    let mut previous = estimate(&filter);
    assert_eq!(previous, 0.0);
    for i in 0..200u64 {
        filter.insert(&item_bytes(i));
        let current = estimate(&filter);
        assert!(current >= previous);
        previous = current;
    }
}

#[test]
fn element_count_tracks_inserts() {
    let mut filter = BloomFilter::with_params(3, 11);
    for i in 0..10u64 {
        assert_eq!(filter.element_count(), i as usize);
        filter.insert(&item_bytes(i));
    }
    assert_eq!(filter.element_count(), 10);
}

#[test]
fn determinism_default() {
    let (hash_count, span) = sizing(100, 0.01);
    let mut first = BloomFilter::with_params(hash_count, span);
    let mut second = BloomFilter::with_params(hash_count, span);
    for i in 0..100u64 {
        first.insert(&item_bytes(i));
        second.insert(&item_bytes(i));
    }
    assert_eq!(first.bit_count(), second.bit_count());
    for j in 0..first.bit_count() {
        assert_eq!(first.bit_at(j), second.bit_at(j));
    }
}

#[test]
fn seeded_filters_differ() {
    let (hash_count, span) = sizing(100, 0.01);
    let mut first = BloomFilter::with_params_and_seed(hash_count, span, 1);
    let mut second = BloomFilter::with_params_and_seed(hash_count, span, 2);
    for i in 0..100u64 {
        first.insert(&item_bytes(i));
        second.insert(&item_bytes(i));
    }
    let mut differs = false;
    for j in 0..first.bit_count() {
        if first.bit_at(j) != second.bit_at(j) {
            differs = true;
        }
    }
    assert!(differs);
}

#[test]
fn same_seed_same_bits() {
    let mut first = BloomFilter::with_params_and_seed(5, 101, 42);
    let mut second = BloomFilter::with_params_and_seed(5, 101, 42);
    for i in 300..350u64 {
        first.insert(&item_bytes(i));
        second.insert(&item_bytes(i));
    }
    for j in 0..first.bit_count() {
        assert_eq!(first.bit_at(j), second.bit_at(j));
    }
}

#[test]
fn insert_then_check() {
    let mut filter = BloomFilter::with_params(7, 137);
    filter.insert(b"hello");
    assert!(filter.check(b"hello"));
    filter.insert(b"world");
    assert!(filter.check(b"hello"));
    assert!(filter.check(b"world"));
}

#[test]
fn bitset_set_and_get() {
    let mut bits = Bitset::new(130);
    assert_eq!(bits.len(), 130);
    for i in 0..130 {
        assert!(!bits.get(i));
    }
    bits.set(0, true);
    bits.set(63, true);
    bits.set(64, true);
    bits.set(129, true);
    for i in 0..130 {
        let expected = i == 0 || i == 63 || i == 64 || i == 129;
        assert_eq!(bits.get(i), expected);
    }
    bits.set(64, false);
    assert!(!bits.get(64));
    assert!(bits.get(63));
    assert!(bits.get(129));
}
