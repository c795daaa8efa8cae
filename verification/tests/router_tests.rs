use shape_router::hash::KeyHash;
use shape_router::predicate::{CompiledPredicate, Instruction};
use shape_router::presence::PresenceFilter;
use shape_router::router::ShapeRouter;

fn const_true_bytes() -> Vec<u8> {
    CompiledPredicate::new(
        vec![Instruction::PushTrue, Instruction::Return],
        Vec::new(),
        Vec::new(),
    )
    .serialize()
}

#[test]
fn test_presence_filter() {
    let keys: Vec<u64> = (0..10000).collect();
    let filter = PresenceFilter::build(&keys).unwrap();

    for key in &keys {
        assert!(filter.contains(*key));
    }

    let mut false_positives = 0;
    for key in 10000..20000 {
        if filter.contains(key) {
            false_positives += 1;
        }
    }

    let fpp = false_positives as f64 / 10000.0;
    println!("False positive rate: {:.2}%", fpp * 100.0);
    assert!(fpp < 0.02, "FPP should be < 2%");

    let bytes_per_key = filter.memory_bytes() as f64 / filter.key_count() as f64;
    println!("Bytes per key: {:.2}", bytes_per_key);
    assert!(bytes_per_key < 3.0, "Should use less than 3 bytes/key");
}

#[test]
fn test_presence_filter_empty() {
    let filter = PresenceFilter::empty();
    assert!(!filter.contains(7));
    assert_eq!(filter.key_count(), 0);
    assert_eq!(filter.memory_bytes(), 0);
    let built = PresenceFilter::build(&Vec::new()).unwrap();
    assert!(!built.contains(7));
}

#[test]
fn test_router_lane_round_trip() {
    let mut router = ShapeRouter::new();
    let a = KeyHash::from_bytes(b"a").value();
    let b = KeyHash::from_bytes(b"b").value();

    router.add_shape(7, &const_true_bytes(), &vec![a]).unwrap();
    router.rebuild().unwrap();

    assert_eq!(router.route_operation(a, None, Some(&[]), &[]), vec![7]);
    assert_eq!(router.route_operation(b, None, Some(&[]), &[]), Vec::<u32>::new());
}

#[test]
fn test_router_remove_shape() {
    let mut router = ShapeRouter::new();
    router.add_shape(3, &const_true_bytes(), &vec![11]).unwrap();
    router.rebuild().unwrap();
    assert_eq!(router.route_operation(11, None, Some(&[]), &[]), vec![3]);

    router.remove_shape(3);
    router.remove_shape(3);
    assert_eq!(router.route_operation(11, None, Some(&[]), &[]), Vec::<u32>::new());
}

#[test]
fn test_router_rejects_bad_predicate() {
    let mut router = ShapeRouter::new();
    assert!(router.add_shape(1, &[9, 9, 9], &vec![5]).is_err());
    router.rebuild().unwrap();
    assert_eq!(router.route_operation(5, None, Some(&[]), &[]), Vec::<u32>::new());
}

#[test]
fn test_router_column_mask_skips() {
    let mut router = ShapeRouter::new();
    let compiler = shape_router::compile::PredicateCompiler::new(vec![(b"status".to_vec(), 0)]);
    let pred = compiler.compile_simple("status = 1").unwrap().serialize();
    router.add_shape(2, &pred, &vec![42]).unwrap();
    router.rebuild().unwrap();

    let mut row = Vec::new();
    row.extend_from_slice(&1u16.to_le_bytes());
    row.extend_from_slice(&0u16.to_le_bytes());
    row.push(1);
    row.extend_from_slice(&1u64.to_le_bytes());

    assert_eq!(router.route_operation(42, None, Some(&row), &[0]), vec![2]);
    assert_eq!(router.route_operation(42, None, Some(&row), &[1]), Vec::<u32>::new());
    assert_eq!(router.route_operation(42, None, Some(&row), &[]), Vec::<u32>::new());
}

#[test]
fn test_router_metrics_counts() {
    let mut router = ShapeRouter::new();
    router.add_shape(1, &const_true_bytes(), &vec![100]).unwrap();
    router.rebuild().unwrap();

    router.route_operation(100, None, Some(&[]), &[]);
    router.route_operation(999_999, None, Some(&[]), &[]);

    let m = router.get_metrics();
    assert_eq!(m.rebuilds, 1);
    assert_eq!(m.presence_checks, 2);
    assert!(m.presence_hits >= 1);
    assert_eq!(m.route_hits, 1);
    assert!(m.route_misses + m.false_positives >= 1);
    assert_eq!(m.total_shapes_matched, 1);
}

#[test]
fn test_router_presence_miss_is_cheap() {
    let mut router = ShapeRouter::new();
    let keys: Vec<u64> = (0..10_000).collect();
    router.add_shape(1, &const_true_bytes(), &keys).unwrap();
    router.rebuild().unwrap();

    let mut non_empty = 0;
    for key in 10_000..20_000u64 {
        if !router.route_operation(key, None, Some(&[]), &[]).is_empty() {
            non_empty += 1;
        }
    }
    assert!(non_empty <= 200, "false positives {} over budget", non_empty);

    let m = router.get_metrics();
    assert_eq!(m.presence_checks, 10_000);
    assert!(m.presence_hits <= 200, "presence hits {}", m.presence_hits);
}

#[test]
fn test_router_route_idempotent() {
    let mut router = ShapeRouter::new();
    router.add_shape(4, &const_true_bytes(), &vec![8, 9]).unwrap();
    router.add_shape(6, &const_true_bytes(), &vec![8]).unwrap();
    router.rebuild().unwrap();

    let first = router.route_operation(8, None, Some(&[]), &[]);
    let second = router.route_operation(8, None, Some(&[]), &[]);
    assert_eq!(first, second);
    assert_eq!(first, vec![4, 6]);

    let m = router.get_metrics();
    assert_eq!(m.route_hits, 2);
    assert_eq!(m.total_shapes_matched, 4);
}
