use shape_router::manifest::{Manifest, LaneManifest, SegmentMetadata};

#[test]
fn test_manifest_creation() {
    let manifest = Manifest::new(64);
    assert_eq!(manifest.num_lanes, 64);
    assert_eq!(manifest.lanes.len(), 64);
    assert_eq!(manifest.generation, 0);
}

#[test]
fn test_lane_manifest() {
    let mut lane = LaneManifest::new(0);

    let segment = SegmentMetadata {
        id: 1,
        level: 0,
        count: 100,
        path: b"lane-0/L0.seg".to_vec(),
        checksum: Some(b"abc123".to_vec()),
    };

    lane.add_segment(segment.clone());
    assert_eq!(lane.segments.len(), 1);
    assert_eq!(lane.segments[0].id, 1);

    lane.remove_segment(1);
    assert_eq!(lane.segments.len(), 0);
}

#[test]
fn test_manifest_generation_advances() {
    let mut manifest = Manifest::new(8);
    assert_eq!(manifest.generation, 0);
    manifest.advance_generation();
    assert_eq!(manifest.generation, 1);
    manifest.advance_generation();
    assert_eq!(manifest.generation, 2);
    assert_eq!(manifest.num_lanes, 8);
}

#[test]
fn test_manifest_get_lane() {
    let mut manifest = Manifest::new(4);
    assert!(manifest.get_lane(2).is_some());
    assert_eq!(manifest.get_lane(2).unwrap().id, 2);
    assert!(manifest.get_lane(9).is_none());

    let lane = manifest.get_lane_mut(1).unwrap();
    lane.overlay_seqno = 17;
    assert_eq!(manifest.get_lane(1).unwrap().overlay_seqno, 17);
}

#[test]
fn test_lane_manifest_keeps_newest_first() {
    let mut lane = LaneManifest::new(0);
    for id in 0..3u64 {
        lane.add_segment(SegmentMetadata {
            id,
            level: 0,
            count: 1,
            path: format!("lane-0/L0-{}.seg", id).into_bytes(),
            checksum: None,
        });
    }
    assert_eq!(lane.segments[0].id, 2);
    assert_eq!(lane.segments[2].id, 0);
    lane.remove_segment(1);
    assert_eq!(lane.segments.len(), 2);
    assert_eq!(lane.segments[0].id, 2);
    assert_eq!(lane.segments[1].id, 0);
}

#[test]
fn test_manifest_document_round_trip() {
    let mut manifest = Manifest::new(2);
    {
        let lane = manifest.get_lane_mut(0).unwrap();
        lane.overlay_seqno = 5;
        lane.add_segment(SegmentMetadata {
            id: 9,
            level: 1,
            count: 42,
            path: b"lane-0/L1-9.seg".to_vec(),
            checksum: Some(b"deadbeef".to_vec()),
        });
        lane.add_segment(SegmentMetadata {
            id: 10,
            level: 0,
            count: 7,
            path: b"lane-0/L0-10.seg".to_vec(),
            checksum: None,
        });
    }
    manifest.advance_generation();

    let doc = shape_router::manifest_wire::encode_manifest(&manifest);
    let loaded = shape_router::manifest_wire::decode_manifest(&doc).unwrap();

    assert_eq!(loaded.version, manifest.version);
    assert_eq!(loaded.num_lanes, manifest.num_lanes);
    assert_eq!(loaded.generation, 1);
    assert_eq!(loaded.lanes.len(), manifest.lanes.len());
    let a = &loaded.lanes[0];
    let b = &manifest.lanes[0];
    assert_eq!(a.id, b.id);
    assert_eq!(a.overlay_seqno, b.overlay_seqno);
    assert_eq!(a.segments.len(), 2);
    assert_eq!(a.segments[0].id, b.segments[0].id);
    assert_eq!(a.segments[0].path, b.segments[0].path);
    assert_eq!(a.segments[0].checksum, b.segments[0].checksum);
    assert_eq!(a.segments[0].checksum, None);
    assert_eq!(a.segments[1].count, b.segments[1].count);
    assert_eq!(a.segments[1].checksum, b.segments[1].checksum);
    assert_eq!(loaded.lanes[1].segments.len(), 0);

    let doc2 = shape_router::manifest_wire::encode_manifest(&loaded);
    assert_eq!(doc2, doc);
}

#[test]
fn test_manifest_document_rejects_malformed() {
    assert!(shape_router::manifest_wire::decode_manifest(&[]).is_err());
    assert!(shape_router::manifest_wire::decode_manifest(b"{}").is_err());
    let manifest = Manifest::new(1);
    let mut doc = shape_router::manifest_wire::encode_manifest(&manifest);
    doc.push(b' ');
    assert!(shape_router::manifest_wire::decode_manifest(&doc).is_err());
}

#[test]
fn test_manifest_strings_check() {
    let mut manifest = Manifest::new(1);
    assert!(shape_router::manifest_wire::manifest_strings_check(&manifest));
    manifest.get_lane_mut(0).unwrap().add_segment(SegmentMetadata {
        id: 1,
        level: 0,
        count: 0,
        path: vec![0x22],
        checksum: None,
    });
    assert!(!shape_router::manifest_wire::manifest_strings_check(&manifest));
}
