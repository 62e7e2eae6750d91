use index_bloom::{probe_from_digest, BloomFilter, ErrorRate};

fn rate(num: u64, den: u64) -> ErrorRate {
    ErrorRate::new(num, den).unwrap()
}

#[test]
fn empty_bloom_filter() {
    let filter = BloomFilter::new(1000, rate(1, 10));
    for bit in filter.bitfield() {
        assert_eq!(0, *bit);
    }
}

#[test]
fn check_bloom_filter_configuration() {
    let filter = BloomFilter::new(5, rate(1, 10));
    assert_eq!(4, filter.key_size());
    assert_eq!(24, filter.bitfield_size());
    assert_eq!(3, filter.bitfield().len());

    let filter = BloomFilter::new(100, rate(1, 2));
    assert_eq!(2, filter.key_size());
    assert_eq!(145, filter.bitfield_size());
    assert_eq!(19, filter.bitfield().len());
}

#[test]
fn insert_new_key() {
    let mut filter = BloomFilter::new(2, rate(1, 10));
    filter.insert("hello").expect("Unable to insert token in filter");
    assert_eq!(vec![43, 0], filter.bitfield());
    filter.insert("world").expect("Unable to insert token in filter");
    assert_eq!(vec![107, 1], filter.bitfield());
}

#[test]
fn filter_contains_a_key() {
    let filter = BloomFilter::new(2, rate(1, 10));
    let (key_size, size) = (filter.key_size(), filter.bitfield_size());
    let filter = BloomFilter::from_parts(key_size, vec![43, 0], size).unwrap();
    assert!(filter.contains("hello").is_ok());
    assert!(filter.contains("hello").unwrap());
    let filter = BloomFilter::from_parts(key_size, vec![107, 1], size).unwrap();
    assert!(filter.contains("world").unwrap());
    assert!(!filter.contains("foobar").unwrap());
}

#[test]
fn sizing_is_a_function_of_capacity_and_rate() {
    for (capacity, num, den) in [(1usize, 1u64, 100u64), (7, 1, 3), (1000, 1, 100000), (3, 99, 100)] {
        let a = BloomFilter::new(capacity, rate(num, den));
        let b = BloomFilter::new(capacity, rate(num, den));
        assert_eq!(a.key_size(), b.key_size());
        assert_eq!(a.bitfield_size(), b.bitfield_size());
        assert!(a.bitfield_size() >= 1);
        assert!(a.key_size() >= 1);
        assert_eq!(a.bitfield().len(), (a.bitfield_size() + 7) / 8);
    }
}

#[test]
fn sizing_exact_values() {
    // m = ceil(-n ln p / (ln 2)^2), k = ceil(m / n * ln 2)
    let filter = BloomFilter::new(2, rate(1, 100));
    assert_eq!(20, filter.bitfield_size());
    assert_eq!(7, filter.key_size());
    let filter = BloomFilter::new(1000, rate(1, 10));
    assert_eq!(4793, filter.bitfield_size());
    assert_eq!(4, filter.key_size());
    assert_eq!(600, filter.bitfield().len());
    let filter = BloomFilter::new(1, rate(99, 100));
    assert_eq!(1, filter.bitfield_size());
    assert_eq!(1, filter.key_size());
}

#[test]
fn fresh_filter_contains_nothing() {
    let filter = BloomFilter::new(10, rate(1, 100));
    for key in ["", "a", "hello", "world", "word1", "caf\u{e9}"] {
        assert!(!filter.contains(key).unwrap());
    }
}

#[test]
fn inserted_keys_are_always_found() {
    let mut filter = BloomFilter::new(50, rate(1, 100));
    let keys: Vec<String> = (0..200).map(|i| format!("key{}", i)).collect();
    for (i, key) in keys.iter().enumerate() {
        filter.insert(key).unwrap();
        for earlier in &keys[..=i] {
            assert!(filter.contains(earlier).unwrap());
        }
    }
}

#[test]
fn inserting_twice_changes_nothing() {
    let mut once = BloomFilter::new(3, rate(1, 10));
    once.insert("hello").unwrap();
    let mut twice = BloomFilter::new(3, rate(1, 10));
    twice.insert("hello").unwrap();
    twice.insert("hello").unwrap();
    assert_eq!(once.bitfield(), twice.bitfield());
    for key in ["hello", "world", "foobar"] {
        assert_eq!(once.contains(key).unwrap(), twice.contains(key).unwrap());
    }
}

#[test]
fn false_positive_rate_near_design() {
    let capacity = 1000;
    let mut filter = BloomFilter::new(capacity, rate(1, 100));
    for i in 0..capacity {
        filter.insert(&format!("member-{}", i)).unwrap();
    }
    let trials = 20000;
    let mut false_positives = 0;
    for i in 0..trials {
        if filter.contains(&format!("outsider-{}", i)).unwrap() {
            false_positives += 1;
        }
    }
    let observed = false_positives as f64 / trials as f64;
    assert!(observed < 0.03, "observed false-positive rate {}", observed);
}

#[test]
fn malformed_filter_parts_are_refused() {
    assert!(BloomFilter::from_parts(0, vec![0], 8).is_err());
    assert!(BloomFilter::from_parts(1, vec![], 0).is_err());
    assert!(BloomFilter::from_parts(1, vec![0, 0], 8).is_err());
    assert!(BloomFilter::from_parts(1, vec![0, 0], 9).is_ok());
    assert_eq!(
        Some(index_bloom::Error::MalformedState),
        BloomFilter::from_parts(1, vec![0], 9).err()
    );
}

#[test]
fn error_rate_must_lie_strictly_between_zero_and_one() {
    assert!(ErrorRate::new(0, 10).is_none());
    assert!(ErrorRate::new(10, 10).is_none());
    assert!(ErrorRate::new(11, 10).is_none());
    let r = ErrorRate::new(1, 10).unwrap();
    assert_eq!((1, 10), (r.numerator(), r.denominator()));
}

#[test]
fn capacity_beyond_sixteen_million_keys() {
    let capacity = 1usize << 25;
    let filter = BloomFilter::new(capacity, rate(1, 10));
    assert_eq!(4, filter.key_size());
    let expected = (capacity as f64 * (10f64).log2() * std::f64::consts::LOG2_E).ceil() as usize;
    assert!(filter.bitfield_size().abs_diff(expected) <= 1);
    assert_eq!(filter.bitfield().len(), (filter.bitfield_size() + 7) / 8);
    assert!(!filter.contains("word1").unwrap());
}

#[test]
fn probe_positions_from_digests() {
    // bytes are rendered without leading zeros, then read back as one numeral
    assert_eq!(Some(291), probe_from_digest(&vec![0x01, 0x23], 1000));
    assert_eq!(Some(91), probe_from_digest(&vec![0x01, 0x23], 100));
    assert_eq!(Some(2815), probe_from_digest(&vec![0x0a, 0xff], 10000));
    assert_eq!(Some(2748), probe_from_digest(&vec![0xab, 0x0c], 1 << 20));
    assert_eq!(Some(0x12345678 % 48), probe_from_digest(&vec![0x12, 0x34, 0x56, 0x78], 48));
    assert_eq!(None, probe_from_digest(&vec![], 48));
}
