use shape_router::bitmap::Bitmap;

#[test]
fn test_bitmap_basics() {
    let b = Bitmap::new();
    assert!(b.is_empty());
    assert_eq!(b.cardinality(), 0);
    assert_eq!(b.min(), None);
    assert_eq!(b.max(), None);

    let b = b.add(5).add(2).add(9);
    assert!(b.contains(5));
    assert!(!b.contains(4));
    assert_eq!(b.cardinality(), 3);
    assert_eq!(b.min(), Some(2));
    assert_eq!(b.max(), Some(9));
    assert_eq!(b.to_list(), vec![2, 5, 9]);

    let b2 = b.remove(5);
    assert!(!b2.contains(5));
    assert!(b.contains(5));

    let cleared = b.clear();
    assert!(cleared.is_empty());
}

#[test]
fn test_bitmap_set_operations() {
    let a = Bitmap::from_list(&vec![1, 2, 3]);
    let b = Bitmap::from_list(&vec![3, 4]);

    assert_eq!(Bitmap::union(&a, &b).to_list(), vec![1, 2, 3, 4]);
    assert_eq!(Bitmap::intersection(&a, &b).to_list(), vec![3]);
    assert_eq!(Bitmap::difference(&a, &b).to_list(), vec![1, 2]);

    assert!(Bitmap::equal(&Bitmap::union(&a, &b), &Bitmap::union(&b, &a)));
    assert!(Bitmap::equal(&Bitmap::intersection(&a, &a), &a));
    assert!(Bitmap::difference(&a, &a).is_empty());

    let card_union = Bitmap::union(&a, &b).cardinality();
    let card_inter = Bitmap::intersection(&a, &b).cardinality();
    assert_eq!(card_union + card_inter, a.cardinality() + b.cardinality());

    assert!(Bitmap::is_subset(&Bitmap::from_list(&vec![2, 3]), &a));
    assert!(!Bitmap::is_subset(&b, &a));
}

#[test]
fn test_bitmap_bulk_operations() {
    let xs = vec![
        Bitmap::from_list(&vec![1, 2]),
        Bitmap::from_list(&vec![2, 3]),
        Bitmap::from_list(&vec![2, 4]),
    ];
    assert_eq!(Bitmap::union_many(&xs).to_list(), vec![1, 2, 3, 4]);
    assert_eq!(Bitmap::intersection_many(&xs).to_list(), vec![2]);
    assert!(Bitmap::union_many(&Vec::new()).is_empty());
    assert!(Bitmap::intersection_many(&Vec::new()).is_empty());

    assert!(Bitmap::any_contains(&xs, 4));
    assert!(!Bitmap::any_contains(&xs, 9));

    let more = Bitmap::from_list(&vec![1]).add_many(&vec![5, 6]);
    assert_eq!(more.to_list(), vec![1, 5, 6]);

    assert!(Bitmap::from_list(&vec![1, 2, 3]).size_in_bytes() > 0);
}
