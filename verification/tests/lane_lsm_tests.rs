use shape_router::compaction::{CompactionPolicy, CompactionScheduler};
use shape_router::hash::KeyHash;
use shape_router::lane::Lane;
use shape_router::lsm::LsmIndex;

#[test]
fn test_lane_insert_lookup() {
    let mut lane = Lane::new(0);
    let hash = KeyHash::from_bytes(b"test_key");

    lane.insert(hash, 1);
    assert_eq!(lane.lookup(hash), Some(vec![1]));

    lane.insert(hash, 2);
    let mut result = lane.lookup(hash).unwrap();
    result.sort();
    assert_eq!(result, vec![1, 2]);
}

#[test]
fn test_lane_remove() {
    let mut lane = Lane::new(0);
    let hash = KeyHash::from_bytes(b"test_key");

    lane.insert(hash, 1);
    lane.remove(hash, 1);

    assert_eq!(lane.lookup(hash), None);
}

#[test]
fn test_lane_compaction() {
    let mut lane = Lane::new(0);

    for i in 0..100 {
        let key = format!("key{}", i);
        let hash = KeyHash::from_bytes(key.as_bytes());
        lane.insert(hash, i as u32);
    }

    assert_eq!(lane.overlay_size(), 100);
    assert_eq!(lane.segment_count(), 0);

    lane.compact().unwrap();

    assert_eq!(lane.overlay_size(), 0);
    assert_eq!(lane.segment_count(), 1);
    assert_eq!(lane.segment_size(), 100);

    for i in 0..100 {
        let key = format!("key{}", i);
        let hash = KeyHash::from_bytes(key.as_bytes());
        assert_eq!(lane.lookup(hash), Some(vec![i as u32]));
    }
}

#[test]
fn test_lane_segment_merging() {
    let mut lane = Lane::new(0);

    for batch in 0..5 {
        for i in 0..20 {
            let key = format!("key{}_{}", batch, i);
            let hash = KeyHash::from_bytes(key.as_bytes());
            lane.insert(hash, (batch * 20 + i) as u32);
        }
        lane.compact().unwrap();
    }

    assert!(lane.segment_count() <= 3);

    for batch in 0..5 {
        for i in 0..20 {
            let key = format!("key{}_{}", batch, i);
            let hash = KeyHash::from_bytes(key.as_bytes());
            assert_eq!(lane.lookup(hash), Some(vec![(batch * 20 + i) as u32]));
        }
    }
}

#[test]
fn test_lane_tombstone_shadows_segment() {
    let mut lane = Lane::new(0);
    let h = KeyHash::from_bytes(b"shadowed");
    lane.insert(h, 1);
    lane.compact().unwrap();
    lane.remove(h, 1);
    assert_eq!(lane.lookup(h), None);
}

#[test]
fn test_lane_tombstone_survives_compaction() {
    let mut lane = Lane::new(0);
    let h = KeyHash::from_bytes(b"kept_shadowed");
    lane.insert(h, 1);
    lane.compact().unwrap();
    lane.remove(h, 1);
    lane.compact().unwrap();
    assert_eq!(lane.lookup(h), None);
    lane.compact().unwrap();
    assert_eq!(lane.lookup(h), None);
}

#[test]
fn test_lane_tombstone_dropped_at_merge() {
    let mut lane = Lane::new(0);
    let h = KeyHash::from_bytes(b"merged_away");
    lane.insert(h, 1);
    lane.compact().unwrap();
    lane.remove(h, 1);
    for batch in 0..5 {
        for i in 0..10 {
            let key = format!("other{}_{}", batch, i);
            lane.insert(KeyHash::from_bytes(key.as_bytes()), 100 + i as u32);
        }
        lane.compact().unwrap();
    }
    assert!(lane.segment_count() <= 3);
    assert_eq!(lane.lookup(h), None);
    for batch in 0..5 {
        for i in 0..10 {
            let key = format!("other{}_{}", batch, i);
            assert_eq!(
                lane.lookup(KeyHash::from_bytes(key.as_bytes())),
                Some(vec![100 + i as u32])
            );
        }
    }
}

#[test]
fn test_lane_stats_and_ids() {
    let mut lane = Lane::new(3);
    lane.insert(KeyHash(1), 10);
    lane.insert(KeyHash(2), 11);
    lane.compact().unwrap();
    lane.insert(KeyHash(3), 12);
    let stats = lane.stats();
    assert_eq!(stats.id, 3);
    assert_eq!(stats.overlay_entries, 1);
    assert_eq!(stats.segment_count, 1);
    assert_eq!(stats.total_segment_entries, 2);
    assert_eq!(stats.total_entries, 3);
    assert_eq!(lane.all_shape_ids(), vec![10, 11, 12]);
    assert!(!lane.is_empty());
}

#[test]
fn test_compaction_scheduler() {
    let policy = CompactionPolicy {
        overlay_threshold: 100,
        max_segments_per_lane: 3,
        size_ratio: 10,
    };

    let scheduler = CompactionScheduler::new(policy);

    let mut lane = Lane::new(0);

    assert!(!scheduler.needs_compaction(&lane));

    for i in 0..50 {
        let hash = KeyHash::from_bytes(format!("key{}", i).as_bytes());
        lane.insert(hash, i as u32);
    }

    assert!(!scheduler.needs_compaction(&lane));

    for i in 50..150 {
        let hash = KeyHash::from_bytes(format!("key{}", i).as_bytes());
        lane.insert(hash, i as u32);
    }

    assert!(scheduler.needs_compaction(&lane));
}

#[test]
fn test_compaction_policy_default() {
    let policy = CompactionPolicy::default();
    assert_eq!(policy.overlay_threshold, 10000);
    assert_eq!(policy.max_segments_per_lane, 3);
    assert_eq!(policy.size_ratio, 10);
    let scheduler = CompactionScheduler::default();
    assert_eq!(scheduler.policy().overlay_threshold, 10000);
}

#[test]
fn test_lsm_insert_lookup_remove() {
    let mut index = LsmIndex::new(8, None);
    assert!(index.is_empty());

    index.insert(b"user:1", 7).unwrap();
    index.insert(b"user:1", 9).unwrap();
    index.insert(b"user:2", 7).unwrap();

    assert_eq!(index.lookup(b"user:1"), Some(vec![7, 9]));
    assert_eq!(index.lookup(b"user:2"), Some(vec![7]));
    assert_eq!(index.lookup(b"user:3"), None);
    assert!(!index.is_empty());

    index.remove(b"user:1", 9).unwrap();
    assert_eq!(index.lookup(b"user:1"), Some(vec![7]));
    index.remove(b"user:1", 7).unwrap();
    assert_eq!(index.lookup(b"user:1"), None);

    assert_eq!(index.all_shape_ids(), vec![7]);
}

#[test]
fn test_lsm_maybe_compact_and_stats() {
    let mut index = LsmIndex::new(4, None);
    for i in 0..40u32 {
        index.insert(format!("k{}", i).as_bytes(), i).unwrap();
    }
    let stats = index.stats();
    assert_eq!(stats.num_lanes, 4);
    assert_eq!(stats.total_overlay_entries, 40);
    assert_eq!(stats.total_segment_entries, 0);

    let compacted = index.maybe_compact(1).unwrap();
    assert!(!compacted.is_empty());
    let stats2 = index.stats();
    assert_eq!(stats2.total_overlay_entries + stats2.total_segment_entries, 40);

    for i in 0..40u32 {
        assert_eq!(index.lookup(format!("k{}", i).as_bytes()), Some(vec![i]));
    }
}

#[test]
fn test_lsm_compaction_interleaved() {
    let mut index = LsmIndex::new(1, None);
    for batch in 0..5 {
        for i in 0..20 {
            let key = format!("key{}_{}", batch, i);
            index.insert(key.as_bytes(), (batch * 20 + i) as u32).unwrap();
        }
        index.maybe_compact(1).unwrap();
    }
    let stats = index.stats();
    assert!(stats.total_segments <= 3);
    for batch in 0..5 {
        for i in 0..20 {
            let key = format!("key{}_{}", batch, i);
            assert_eq!(index.lookup(key.as_bytes()), Some(vec![(batch * 20 + i) as u32]));
        }
    }
}
