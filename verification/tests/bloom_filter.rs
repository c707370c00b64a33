use multibloom::BloomFilter;

fn bytes(i: u64) -> Vec<u8> {
    i.to_le_bytes().to_vec()
}

#[test]
fn it_works() {
}

#[test]
fn no_false_negatives() {
    let mut f = BloomFilter::new(10_000, 4);
    for i in 0..1000u64 {
        f.add(&bytes(i));
    }
    for i in 0..1000u64 {
        assert!(f.query(&bytes(i)), "inserted value {} not reported", i);
    }
}

#[test]
fn query_is_deterministic() {
    let mut f = BloomFilter::new(1000, 3);
    f.add(b"present");
    for _ in 0..10 {
        assert!(f.query(b"present"));
    }
    let absent_first = f.query(b"absent value");
    for _ in 0..10 {
        assert_eq!(f.query(b"absent value"), absent_first);
    }
}

#[test]
fn add_is_idempotent() {
    let mut f = BloomFilter::new(1000, 3);
    f.add(b"twice");
    let once = f.get_bits_set();
    f.add(b"twice");
    assert_eq!(f.get_bits_set(), once);
    assert!(f.query(b"twice"));
}

#[test]
fn sizing_formula() {
    let f = BloomFilter::new_with_params(100_000, 1, 10).unwrap();
    let n = 100_000f64;
    let p = 0.1f64;
    let lower = -(n * p.ln()) / (2f64.ln() * 2f64.ln());
    assert!(f.size as f64 >= lower, "under-provisioned: {} < {}", f.size, lower);
    assert!(f.hash_count >= 1);
    assert_eq!(f.size, 479_253);
    assert_eq!(f.hash_count, 3);
}

#[test]
fn sizing_rejects_degenerate_inputs() {
    assert!(BloomFilter::new_with_params(0, 1, 10).is_none());
    assert!(BloomFilter::new_with_params(100, 0, 10).is_none());
    assert!(BloomFilter::new_with_params(100, 10, 10).is_none());
    assert!(BloomFilter::new_with_params(100, 11, 10).is_none());
}

#[test]
fn sizing_more_items_need_more_bits() {
    let small = BloomFilter::new_with_params(1000, 1, 100).unwrap();
    let large = BloomFilter::new_with_params(10_000, 1, 100).unwrap();
    assert!(small.size >= 1000);
    assert!(large.size > small.size);
}

#[test]
fn empty_filter_queries_false() {
    let f = BloomFilter::new(1000, 3);
    assert_eq!(f.get_bits_set(), 0);
    for i in 0..100u64 {
        assert!(!f.query(&bytes(i)));
    }
    assert!(!f.query(b""));
    assert!(!f.query(b"anything at all"));
}

#[test]
fn clear_resets_everything() {
    let mut f = BloomFilter::new(1000, 3);
    for i in 0..50u64 {
        f.add(&bytes(i));
    }
    assert!(f.get_bits_set() > 0);
    f.clear();
    assert_eq!(f.get_bits_set(), 0);
    for i in 0..50u64 {
        assert!(!f.query(&bytes(i)));
    }
    f.add(&bytes(7));
    assert!(f.query(&bytes(7)));
}

#[test]
fn false_positive_rate_near_target() {
    let mut f = BloomFilter::new_with_params(100_000, 1, 10).unwrap();
    for i in 0..100_000u64 {
        f.add(&bytes(i));
    }
    let mut false_positives = 0usize;
    for i in 100_000..120_000u64 {
        if f.query(&bytes(i)) {
            false_positives += 1;
        }
    }
    let rate = false_positives as f64 / 20_000f64;
    assert!(rate > 0.02 && rate < 0.25, "false-positive rate {} out of band", rate);
}

#[test]
fn derived_positions_in_range() {
    for size in [1u64, 2, 3, 7, 1000, u32::MAX as u64] {
        for i in 0..16u64 {
            let pos = multibloom::hashing::derive_index(
                0x0123_4567_89ab_cdef,
                0xfedc_ba98_7654_3210,
                i,
                size,
            );
            assert!(pos < size);
        }
    }
    let f = BloomFilter::new(101, 8);
    for i in 0..8u64 {
        assert!(f.bloom_hash(i, b"some value") < f.size);
        assert!(f.bloom_hash(i, b"") < f.size);
    }
}

#[test]
fn empty_value_is_a_value() {
    let mut f = BloomFilter::new(1000, 3);
    assert!(!f.query(b""));
    f.add(b"");
    assert!(f.query(b""));
    f.clear();
    assert!(!f.query(b""));
}

#[test]
fn single_bit_filter_saturates() {
    let mut f = BloomFilter::new(1, 2);
    assert!(!f.query(b"x"));
    f.add(b"y");
    assert_eq!(f.get_bits_set(), 1);
    assert!(f.query(b"x"));
    assert!(f.query(b"y"));
}

#[test]
fn fill_count_matches_scan() {
    let mut f = BloomFilter::new(4096, 5);
    for i in 0..300u64 {
        f.add(&bytes(i));
        if i % 97 == 0 {
            let scanned = f.bloom.iter().filter(|x| *x).count();
            assert_eq!(f.get_bits_set(), scanned);
        }
    }
    let scanned = f.bloom.iter().filter(|x| *x).count();
    assert_eq!(f.get_bits_set(), scanned);
    assert!(f.get_bits_set() <= 300 * 5);
    f.clear();
    assert_eq!(f.bloom.iter().filter(|x| *x).count(), 0);
    assert_eq!(f.get_bits_set(), 0);
}

#[test]
fn hashing_distinguishes_values() {
    let mut f = BloomFilter::new(1 << 20, 1);
    f.add(b"a value that is present");
    assert!(f.query(b"a value that is present"));
    assert!(!f.query(b"a value that is absent"));
    assert!(!f.query(b"a value that is presenu"));
}

#[test]
fn caller_keyed_hashers_differ_from_default() {
    let mut f = BloomFilter::new(1 << 16, 4);
    let mut g = BloomFilter::new_with_hasher(1 << 16, 4, 1, 2, 3, 4);
    f.add(b"shared value");
    g.add(b"shared value");
    assert!(f.query(b"shared value"));
    assert!(g.query(b"shared value"));
    let fp: Vec<usize> = (0..(1u64 << 16)).filter(|&j| {
        let jb = j as usize;
        f.bloom.get(jb).unwrap()
    }).map(|j| j as usize).collect();
    let gp: Vec<usize> = (0..(1u64 << 16)).filter(|&j| {
        let jb = j as usize;
        g.bloom.get(jb).unwrap()
    }).map(|j| j as usize).collect();
    assert_ne!(fp, gp, "distinct keys should place bits differently");
}

#[test]
fn params_with_hasher_sizes_like_default() {
    let f = BloomFilter::new_with_params(1000, 5, 100).unwrap();
    let g = BloomFilter::new_with_params_with_hasher(1000, 5, 100, 9, 8, 7, 6).unwrap();
    assert_eq!(f.size, g.size);
    assert_eq!(f.hash_count, g.hash_count);
    assert_eq!(g.key0, 9);
}
