use rublo::hashing::key_hash;
use rublo::filter::{BloomFilter, Fpp, Geometry, ScalableBloomFilter, ScaleFactor, SetError, StageRequest, TIGHTENING_PERCENT};

fn hash(bytes: &[u8], seed: u32) -> u32 {
    key_hash(bytes, seed)
}

fn geometry(capacity: usize, fpp: f64) -> Geometry {
    let ln2 = std::f64::consts::LN_2;
    let m = (-(capacity as f64) * fpp.ln() / (ln2 * ln2)).ceil() as usize;
    let k = ((m as f64 / capacity as f64) * ln2).ceil() as u32;
    Geometry { bits: m, hashes: k }
}

fn sizing(q: StageRequest) -> Geometry {
    let base = q.fpp.mantissa as f64 / 10f64.powi(q.fpp.scale as i32);
    let ratio = TIGHTENING_PERCENT as f64 / 100.0;
    geometry(q.capacity, base * ratio.powi(q.tightening as i32))
}

fn probes(key: &str, k: u32) -> Vec<u32> {
    (0..k).map(|i| hash(key.as_bytes(), i)).collect()
}

#[test]
fn test_new() {
    let bf = BloomFilter::new(geometry(5, 0.01));
    assert_eq!(bf.capacity(), 48);
    assert_eq!(bf.hash_count(), 7);
    let bf = BloomFilter::new(geometry(1500, 0.001));
    assert_eq!(bf.capacity(), 21567);
    assert_eq!(bf.hash_count(), 10);
    let bf = BloomFilter::new(geometry(400, 0.05));
    assert_eq!(bf.capacity(), 2495);
    assert_eq!(bf.hash_count(), 5);
    let bf = BloomFilter::new(geometry(192, 0.05));
    assert_eq!(bf.byte_space(), 149)
}

#[test]
fn test_check() {
    let mut bf = BloomFilter::new(geometry(5, 0.01));
    for word in ["Vega", "Pandora", "Magnetar", "Pulsar", "Nebula"].iter() {
        bf.set(&probes(word, 7)).unwrap();
    }
    for want in [
        ("Pandora", true),
        ("Magnetar", true),
        ("Blazar", false),
        ("Vega", true),
        ("Dwarf", false),
        ("Trail", false),
    ]
    .iter()
    {
        assert_eq!(bf.check(&probes(want.0, 7)), want.1);
    }
}

#[test]
fn stage_counts_hits_and_misses() {
    let mut bf = BloomFilter::new(Geometry { bits: 48, hashes: 7 });
    assert_eq!(bf.set(&probes("Vega", 7)), Ok(false));
    assert_eq!(bf.size(), 1);
    assert_eq!(bf.set(&probes("Vega", 7)), Ok(true));
    assert_eq!(bf.size(), 1);
    assert!(bf.check(&probes("Vega", 7)));
    assert!(!bf.check(&probes("Blazar", 7)));
    assert_eq!((bf.hits(), bf.miss()), (1, 1));
    bf.clear();
    assert_eq!(bf.size(), 0);
    assert!(!bf.check(&probes("Vega", 7)));
    assert_eq!((bf.hits(), bf.miss()), (1, 2));
}

#[test]
fn full_stage_refuses_keys() {
    let mut bf = BloomFilter::new(Geometry { bits: 1, hashes: 1 });
    assert_eq!(bf.set(&[3]), Ok(false));
    assert!(bf.is_full());
    assert!(bf.set(&[4]).is_err());
    let mut empty = BloomFilter::new(Geometry { bits: 0, hashes: 1 });
    assert!(empty.set(&[4]).is_err());
    assert!(!empty.check(&[4]));
}

fn small_filter() -> ScalableBloomFilter {
    ScalableBloomFilter::new("test-sbf".to_string(), 5, Fpp { mantissa: 1, scale: 2 }, ScaleFactor::SmallScaleSize, 0)
}

#[test]
fn filter_test_set() {
    let mut sbf = small_filter();
    for word in ["Nexus", "Ilios", "Vega", "Pandora", "Magnetar", "Pulsar", "Nebula"].iter() {
        sbf.set(word.as_bytes(), &hash, &sizing, 1).unwrap();
    }
    for want in [
        ("Pandora", true),
        ("Magnetar", true),
        ("Blazar", false),
        ("Vega", true),
        ("Dwarf", false),
        ("Trail", false),
    ]
    .iter()
    {
        assert_eq!(sbf.check(want.0.as_bytes(), &hash, 2), want.1);
    }
    assert_eq!(sbf.filter_count(), 1);
    for word in ["Collider", "Neutron", "Positron", "Hyperion", "Arcadia", "Pantheon"].iter() {
        sbf.set(word.as_bytes(), &hash, &sizing, 3).unwrap();
    }
    assert_eq!(sbf.size(), 13);
}

#[test]
fn scalable_filter_test_set() {
    let mut sbf = small_filter();
    for word in ["Vega", "Pandora", "Magnetar", "Pulsar", "Nebula"].iter() {
        sbf.set(word.as_bytes(), &hash, &sizing, 1).unwrap();
    }
    for want in [
        ("Pandora", true),
        ("Magnetar", true),
        ("Blazar", false),
        ("Vega", true),
        ("Dwarf", false),
        ("Trail", false),
    ]
    .iter()
    {
        assert_eq!(sbf.check(want.0.as_bytes(), &hash, 2), want.1);
    }
    assert_eq!(sbf.filter_count(), 1);
    for word in ["Collider", "Neutron", "Positron", "Hyperion", "Arcadia"].iter() {
        sbf.set(word.as_bytes(), &hash, &sizing, 3).unwrap();
    }
    assert_eq!(sbf.size(), 10);
}

#[test]
fn ten_distinct_keys_fill_one_stage_of_ninety_nine_bits() {
    let mut sbf = small_filter();
    let words = ["Vega", "Pandora", "Magnetar", "Pulsar", "Nebula", "Collider", "Neutron", "Positron", "Hyperion", "Arcadia"];
    for word in words.iter() {
        assert_eq!(sbf.set(word.as_bytes(), &hash, &sizing, 1), Ok(false));
    }
    assert_eq!(sbf.size(), 10);
    assert_eq!(sbf.filter_count(), 1);
    assert_eq!(sbf.capacity(), 99);
    assert_eq!(sbf.hash_count(), 7);
    for word in words.iter() {
        assert!(sbf.check(word.as_bytes(), &hash, 2));
    }
}

#[test]
fn second_insertion_is_idempotent() {
    let mut sbf = small_filter();
    assert_eq!(sbf.set(b"Vega", &hash, &sizing, 1), Ok(false));
    assert_eq!(sbf.set(b"Vega", &hash, &sizing, 2), Ok(true));
    assert_eq!(sbf.size(), 1);
    assert_eq!(sbf.last_access_time(), 2);
    assert_eq!(sbf.creation_time(), 0);
}

#[test]
fn one_bit_stage_holds_every_key() {
    // One bit per stage: every stage is full after one key.
    let one_bit = |_q: StageRequest| Geometry { bits: 1, hashes: 1 };
    let mut sbf = small_filter();
    assert_eq!(sbf.set(b"a", &hash, &one_bit, 1), Ok(false));
    assert_eq!(sbf.filter_count(), 1);
    // A key whose bit differs from the first would be new; with one bit every
    // key collides, so a second key is already present.
    assert_eq!(sbf.set(b"b", &hash, &one_bit, 1), Ok(true));
    assert_eq!(sbf.filter_count(), 1);
    sbf.clear(2);
    assert_eq!(sbf.set(b"c", &hash, &one_bit, 3), Ok(false));
    assert_eq!(sbf.filter_count(), 1);
    assert_eq!(sbf.size(), 1);
}

#[test]
fn stage_requests_grow_with_the_scale_factor() {
    let seen = std::cell::RefCell::new(Vec::new());
    let record = |q: StageRequest| {
        seen.borrow_mut().push(q);
        Geometry { bits: 0, hashes: 1 }
    };
    let mut sbf = ScalableBloomFilter::new("x".to_string(), 7, Fpp { mantissa: 5, scale: 2 }, ScaleFactor::LargeScaleSize, 0);
    // A stage born with no bits is full: the insertion fails, and the next one appends again.
    assert_eq!(sbf.set(b"k", &hash, &record, 1), Err(SetError::Full));
    assert_eq!(sbf.set(b"k", &hash, &record, 1), Err(SetError::Full));
    let seen = seen.borrow();
    assert_eq!(seen.len(), 2);
    assert_eq!(seen[0], StageRequest { capacity: 28, fpp: Fpp { mantissa: 5, scale: 2 }, tightening: 1 });
    assert_eq!(seen[1].tightening, 2);
    assert_eq!(sbf.filter_count(), 2);
}

#[test]
fn oversized_stage_cannot_be_added() {
    let huge = |_q: StageRequest| Geometry { bits: usize::MAX, hashes: 1 };
    let mut sbf = small_filter();
    assert_eq!(sbf.set(b"k", &hash, &huge, 1), Err(SetError::CannotGrow));
    assert_eq!(sbf.filter_count(), 0);
    let mut wide = ScalableBloomFilter::new("w".to_string(), usize::MAX, Fpp { mantissa: 5, scale: 2 }, ScaleFactor::SmallScaleSize, 0);
    assert_eq!(wide.set(b"k", &hash, &sizing, 1), Err(SetError::CannotGrow));
}

#[test]
fn clear_forgets_every_key() {
    let mut sbf = small_filter();
    for word in ["Vega", "Pandora", "Magnetar"].iter() {
        sbf.set(word.as_bytes(), &hash, &sizing, 1).unwrap();
    }
    sbf.clear(5);
    assert_eq!(sbf.size(), 0);
    assert_eq!(sbf.filter_count(), 1);
    assert_eq!(sbf.last_access_time(), 5);
    for word in ["Vega", "Pandora", "Magnetar"].iter() {
        assert!(!sbf.check(word.as_bytes(), &hash, 6));
    }
    // Two misses from the membership tests inside the second and third
    // insertions, three from the checks after the clear.
    assert_eq!(sbf.miss(), 5);
}

#[test]
fn empty_filter_aggregates_are_zero() {
    let sbf = small_filter();
    assert_eq!(sbf.capacity(), 0);
    assert_eq!(sbf.byte_space(), 0);
    assert_eq!(sbf.size(), 0);
    assert_eq!(sbf.hash_count(), 0);
    assert_eq!(sbf.hits(), 0);
    assert_eq!(sbf.name(), "test-sbf");
    assert_eq!(sbf.fpp(), Fpp { mantissa: 1, scale: 2 });
    assert_eq!(ScaleFactor::small_scale_size().multiplier(), 2);
    assert_eq!(ScaleFactor::large_scale_size().multiplier(), 4);
}

#[test]
fn probe_hashes_differ_by_seed_and_key() {
    let a0 = key_hash(b"Vega", 0);
    assert_eq!(a0, key_hash(b"Vega", 0));
    assert_ne!(a0, key_hash(b"Vega", 1));
    assert_ne!(a0, key_hash(b"Pandora", 0));
    assert_eq!(rublo::filter::probe_hashes(&key_hash, b"Vega", 3), vec![a0, key_hash(b"Vega", 1), key_hash(b"Vega", 2)]);
}
