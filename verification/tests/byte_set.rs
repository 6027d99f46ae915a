use noisepass::byte_set::ByteSet;

#[test]
fn insert_remove_membership_all_values() {
    let mut v: u16 = 0;
    while v <= 255 {
        let b = v as u8;
        let mut s = ByteSet::new();
        assert!(!s.contains(b));
        s.insert(b);
        assert!(s.contains(b));
        s.insert(b);
        assert!(s.contains(b));
        s.remove(b);
        assert!(!s.contains(b));
        s.remove(b);
        assert!(!s.contains(b));
        v += 1;
    }
}

#[test]
fn membership_survives_removal_of_other_values() {
    let mut s = ByteSet::new();
    s.insert(7);
    s.remove(8);
    s.remove(6);
    assert!(s.contains(7));
}

#[test]
fn iteration_is_strictly_ascending() {
    let mut s = ByteSet::new();
    s.insert(5);
    s.insert(3);
    s.insert(200);
    assert_eq!(s.to_vec(), vec![3u8, 5, 200]);
    let mut it = s.iter();
    assert_eq!(it.next(), Some(3));
    assert_eq!(it.next(), Some(5));
    assert_eq!(it.next(), Some(200));
    assert_eq!(it.next(), None);
    assert_eq!(it.next(), None);
}

#[test]
fn difference_removes_shared_members() {
    let mut a = ByteSet::new();
    a.insert(1);
    a.insert(2);
    a.insert(3);
    let mut b = ByteSet::new();
    b.insert(2);
    b.insert(9);
    a.difference(&b);
    assert_eq!(a.to_vec(), vec![1u8, 3]);
}

#[test]
fn subset_and_emptiness() {
    let mut a = ByteSet::new();
    a.insert(1);
    a.insert(2);
    let mut b = ByteSet::new();
    b.insert(2);
    assert!(b.is_subset(&a));
    assert!(!a.is_subset(&b));
    assert!(!a.is_empty());
    let e = ByteSet::new();
    assert!(e.is_empty());
    assert!(e.is_subset(&a));
    assert!(e.is_subset(&e));
}

#[test]
fn from_raw_parts_reads_the_bitmap() {
    let s = ByteSet::from_raw_parts([0b101, 0, 1, 0]);
    assert!(s.contains(0));
    assert!(!s.contains(1));
    assert!(s.contains(2));
    assert!(s.contains(128));
    assert!(!s.contains(255));
    assert_eq!(s.to_vec(), vec![0u8, 2, 128]);
}
