use shape_router::hash::KeyHash;
use shape_router::overlay::Overlay;
use shape_router::segment::{Segment, SegmentBuilder};
use shape_router::shape_index::{DeltaOverlay, ShapeIdPool, ShapeIndex};

#[test]
fn test_overlay_insert_lookup() {
    let mut overlay = Overlay::new();
    let hash = KeyHash::from_bytes(b"test_key");

    overlay.insert(hash, 1);
    assert_eq!(overlay.lookup(hash), Some(vec![1]));

    overlay.insert(hash, 2);
    let mut result = overlay.lookup(hash).unwrap();
    result.sort();
    assert_eq!(result, vec![1, 2]);
}

#[test]
fn test_overlay_remove() {
    let mut overlay = Overlay::new();
    let hash = KeyHash::from_bytes(b"test_key");

    overlay.insert(hash, 1);
    overlay.insert(hash, 2);

    overlay.remove(hash, 1);
    assert_eq!(overlay.lookup(hash), Some(vec![2]));

    overlay.remove(hash, 2);
    assert_eq!(overlay.lookup(hash), None);
}

#[test]
fn test_overlay_tombstone() {
    let mut overlay = Overlay::new();
    let hash = KeyHash::from_bytes(b"test_key");

    overlay.insert(hash, 1);
    overlay.remove(hash, 1);

    assert_eq!(overlay.lookup(hash), None);

    assert!(overlay.contains(hash));
}

#[test]
fn test_overlay_all_shape_ids() {
    let mut overlay = Overlay::new();

    overlay.insert(KeyHash::from_bytes(b"key1"), 1);
    overlay.insert(KeyHash::from_bytes(b"key2"), 2);
    overlay.insert(KeyHash::from_bytes(b"key3"), 1);

    let ids = overlay.all_shape_ids();
    assert_eq!(ids.len(), 2);
    assert!(ids.contains(&1));
    assert!(ids.contains(&2));
}

#[test]
fn test_overlay_len_generation_clear() {
    let mut overlay = Overlay::with_capacity(8);
    assert!(overlay.is_empty());
    assert_eq!(overlay.generation(), 0);
    overlay.insert(KeyHash(7), 1);
    overlay.insert(KeyHash(8), 2);
    assert_eq!(overlay.len(), 2);
    assert_eq!(overlay.generation(), 2);
    overlay.clear();
    assert!(overlay.is_empty());
    assert_eq!(overlay.generation(), 0);
}

#[test]
fn test_overlay_merge() {
    let mut overlay1 = Overlay::new();
    let mut overlay2 = Overlay::new();

    overlay1.insert(KeyHash::from_bytes(b"key1"), 1);
    overlay2.insert(KeyHash::from_bytes(b"key2"), 2);

    overlay1.merge(&overlay2);

    assert_eq!(overlay1.lookup(KeyHash::from_bytes(b"key1")), Some(vec![1]));
    assert_eq!(overlay1.lookup(KeyHash::from_bytes(b"key2")), Some(vec![2]));
}

#[test]
fn test_overlay_merge_tombstone_shadows() {
    let mut overlay1 = Overlay::new();
    let mut overlay2 = Overlay::new();
    let hash = KeyHash::from_bytes(b"shared_key");

    overlay1.insert(hash, 1);
    overlay2.remove(hash, 1);

    overlay1.merge(&overlay2);

    assert_eq!(overlay1.lookup(hash), None);
    assert!(overlay1.contains(hash));
}

#[test]
fn test_overlay_merge_unions_shared_key() {
    let mut overlay1 = Overlay::new();
    let mut overlay2 = Overlay::new();
    let hash = KeyHash::from_bytes(b"shared_key");

    overlay1.insert(hash, 1);
    overlay2.insert(hash, 2);
    overlay2.insert(hash, 3);

    overlay1.merge(&overlay2);

    assert_eq!(overlay1.lookup(hash), Some(vec![1, 2, 3]));
}

#[test]
fn test_segment_creation() {
    let hash1 = KeyHash::from_bytes(b"key1");
    let hash2 = KeyHash::from_bytes(b"key2");

    let entries = vec![
        (hash1, vec![1, 2]),
        (hash2, vec![3]),
    ];

    let segment = Segment::new(1, 0, entries);

    assert_eq!(segment.len(), 2);
    assert_eq!(segment.id(), 1);
    assert_eq!(segment.level(), 0);
}

#[test]
fn test_segment_lookup() {
    let hash1 = KeyHash::from_bytes(b"key1");
    let hash2 = KeyHash::from_bytes(b"key2");

    let entries = vec![
        (hash1, vec![1, 2]),
        (hash2, vec![3]),
    ];

    let segment = Segment::new(1, 0, entries);

    assert_eq!(segment.lookup(hash1), Some(vec![1, 2]));
    assert_eq!(segment.lookup(hash2), Some(vec![3]));

    let hash3 = KeyHash::from_bytes(b"key3");
    assert_eq!(segment.lookup(hash3), None);
}

#[test]
fn test_segment_builder() {
    let mut builder = SegmentBuilder::new(1, 0);

    builder.add(KeyHash::from_bytes(b"key1"), vec![1]);
    builder.add(KeyHash::from_bytes(b"key2"), vec![2, 3]);

    let segment = builder.build();

    assert_eq!(segment.len(), 2);
    assert_eq!(segment.lookup(KeyHash::from_bytes(b"key1")), Some(vec![1]));
    assert_eq!(segment.lookup(KeyHash::from_bytes(b"key2")), Some(vec![2, 3]));
}

#[test]
fn test_segment_all_shape_ids() {
    let entries = vec![
        (KeyHash::from_bytes(b"key1"), vec![1, 2]),
        (KeyHash::from_bytes(b"key2"), vec![2, 3]),
    ];

    let segment = Segment::new(1, 0, entries);

    let mut ids = segment.all_shape_ids();
    ids.sort();

    assert_eq!(ids, vec![1, 2, 3]);
}

#[test]
fn test_segment_contains_and_memory() {
    let entries = vec![(KeyHash(5), vec![1]), (KeyHash(6), vec![2])];
    let segment = Segment::new(9, 1, entries);
    assert!(segment.contains(KeyHash(5)));
    assert!(!segment.contains(KeyHash(7)));
    assert!(!segment.is_empty());
    assert!(segment.memory_bytes() > 0);
    assert_eq!(segment.iter().len(), 2);
}

#[test]
fn test_segment_duplicate_keys_last_wins() {
    let entries = vec![(KeyHash(5), vec![1]), (KeyHash(5), vec![2, 9])];
    let segment = Segment::new(0, 0, entries);
    assert_eq!(segment.len(), 1);
    assert_eq!(segment.lookup(KeyHash(5)), Some(vec![2, 9]));
}

#[test]
fn test_delta_overlay() {
    let mut delta = DeltaOverlay::new();

    delta.add(100, 1);
    delta.add(100, 2);
    delta.add(200, 3);

    assert_eq!(delta.lookup(100), Some(vec![1, 2]));
    assert_eq!(delta.lookup(200), Some(vec![3]));
    assert_eq!(delta.lookup(300), None);
}

#[test]
fn test_shape_id_pool() {
    let mut pool = ShapeIdPool::new();

    let shapes1 = vec![1, 2, 3];
    let offset1 = pool.encode_shapes(&shapes1);

    let shapes2 = vec![100, 200];
    let offset2 = pool.encode_shapes(&shapes2);

    assert_eq!(pool.decode_shapes(offset1), shapes1);
    assert_eq!(pool.decode_shapes(offset2), shapes2);

    println!("Pool size: {} bytes", pool.memory_bytes());
}

#[test]
fn test_shape_id_pool_bad_offset() {
    let mut pool = ShapeIdPool::new();
    pool.encode_shapes(&vec![7]);
    assert_eq!(pool.decode_shapes(10_000), Vec::<u32>::new());
}

#[test]
fn test_shape_index_lookup_and_tombstones() {
    let mut index = ShapeIndex::new();
    assert_eq!(index.lookup(42), None);
    index.add_to_delta(42, 1);
    index.add_to_delta(42, 2);
    index.add_to_delta(42, 2);
    assert_eq!(index.lookup(42), Some(vec![1, 2]));
    assert_eq!(index.delta_size(), 1);

    index.mark_shape_deleted(1);
    index.mark_shape_deleted(1);
    assert_eq!(index.tombstone_count(), 1);
    assert_eq!(index.lookup(42), Some(vec![2]));

    index.mark_shape_deleted(2);
    assert_eq!(index.lookup(42), Some(vec![]));

    let keys = index.collect_all_present_keys();
    assert_eq!(keys, vec![42]);
}
