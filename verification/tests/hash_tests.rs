use shape_router::hash::{KeyHash, jump_consistent_hash};

#[test]
fn test_key_hash_deterministic() {
    let key = b"test_key";
    let hash1 = KeyHash::from_bytes(key);
    let hash2 = KeyHash::from_bytes(key);
    assert_eq!(hash1, hash2);
}

#[test]
fn test_key_hash_different_keys() {
    let hash1 = KeyHash::from_bytes(b"key1");
    let hash2 = KeyHash::from_bytes(b"key2");
    assert_ne!(hash1, hash2);
}

#[test]
fn test_lane_assignment() {
    let hash = KeyHash::from_bytes(b"test_key");
    let num_lanes = 64;

    let lane1 = hash.lane(num_lanes);
    let lane2 = hash.lane(num_lanes);
    assert_eq!(lane1, lane2);

    assert!(lane1 < num_lanes);
}

#[test]
fn test_jump_consistent_hash_distribution() {
    let num_buckets = 64;
    let num_keys = 10000;

    let mut bucket_counts = vec![0; num_buckets];

    for i in 0..num_keys {
        let key = i as u64;
        let bucket = jump_consistent_hash(key, num_buckets as u32);
        bucket_counts[bucket as usize] += 1;
    }

    let expected = num_keys / num_buckets;
    let tolerance = expected / 4;

    for count in bucket_counts {
        assert!(
            count > expected - tolerance && count < expected + tolerance,
            "Bucket count {} is outside tolerance range [{}, {}]",
            count,
            expected - tolerance,
            expected + tolerance
        );
    }
}

#[test]
fn test_jump_consistent_hash_stability() {
    let key = 12345u64;
    let bucket_32 = jump_consistent_hash(key, 32);
    let bucket_64 = jump_consistent_hash(key, 64);

    assert_eq!(jump_consistent_hash(key, 32), bucket_32);
    assert_eq!(jump_consistent_hash(key, 64), bucket_64);
}

#[test]
fn test_key_hash_value() {
    let hash = KeyHash::from_bytes(b"abc");
    assert_eq!(hash.value(), hash.0);
}
