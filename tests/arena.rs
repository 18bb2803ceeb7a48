use watch_lib::ArbitraryIdStore;

#[test]
fn add_appends_without_holes() {
    let mut s: ArbitraryIdStore<u32> = ArbitraryIdStore::new();
    assert_eq!(s.add(10), 0);
    assert_eq!(s.add(11), 1);
    assert_eq!(s.add(12), 2);
    assert_eq!(s.slot_count(), 3);
}

#[test]
fn delete_then_add_reuses_the_hole() {
    let mut s: ArbitraryIdStore<u32> = ArbitraryIdStore::new();
    for v in 0..4 {
        s.add(v);
    }
    s.delete(1);
    assert_eq!(s.get(1), None);
    let id = s.add(99);
    assert_eq!(id, 1);
    assert!(id <= 3);
    assert_eq!(s.get(1), Some(&99));
    assert_eq!(s.slot_count(), 4);
}

#[test]
fn add_fills_the_highest_hole_first() {
    let mut s: ArbitraryIdStore<u32> = ArbitraryIdStore::new();
    for v in 0..5 {
        s.add(v);
    }
    s.delete(0);
    s.delete(3);
    assert_eq!(s.add(7), 3);
    assert_eq!(s.add(8), 0);
    assert_eq!(s.add(9), 5);
}

#[test]
fn get_out_of_range_is_none() {
    let mut s: ArbitraryIdStore<u32> = ArbitraryIdStore::new();
    s.add(1);
    assert_eq!(s.get(1), None);
    assert_eq!(s.get(usize::MAX), None);
}

#[test]
fn get_mut_changes_the_slot() {
    let mut s: ArbitraryIdStore<u32> = ArbitraryIdStore::new();
    s.add(1);
    *s.get_mut(0).unwrap() = 5;
    assert_eq!(s.get(0), Some(&5));
    assert!(s.get_mut(3).is_none());
}
