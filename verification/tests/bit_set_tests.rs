use default_vec2::BitSet;

#[test]
fn insert_reports_prior_absence() {
    let mut s = BitSet::default();
    assert!(s.insert(0));
    assert!(!s.insert(0));
    assert!(s.contains(0));
    assert!(!s.insert(0));
    assert!(s.contains(0));
}

#[test]
fn remove_reports_prior_presence() {
    let mut s = BitSet::default();
    assert!(!s.remove(0));
    s.insert(0);
    assert!(s.remove(0));
    assert!(!s.remove(0));
}

#[test]
fn remove_on_untouched_set_is_false() {
    let mut s = BitSet::default();
    assert!(!s.remove(1000));
    assert!(!s.contains(1000));
}

#[test]
fn set_reports_prior_membership() {
    let mut s = BitSet::default();
    assert!(!s.set(0, false));
    assert!(!s.set(0, true));
    assert!(s.set(0, true));
    assert!(s.set(0, false));
    assert!(!s.contains(0));
}

#[test]
fn contains_reflects_net_effect_in_program_order() {
    let mut s = BitSet::default();
    s.insert(3);
    s.insert(5);
    s.remove(3);
    s.set(7, true);
    s.set(5, false);
    s.insert(3);
    assert!(s.contains(3));
    assert!(!s.contains(5));
    assert!(s.contains(7));
    assert!(!s.contains(0));
}

#[test]
fn contains_never_grows_storage() {
    let s = BitSet::default();
    assert!(!s.contains(1_000_000));
    assert_eq!(s.to_chunks().len(), 0);
}

#[test]
fn contains_mut_reserves_storage() {
    let mut s = BitSet::default();
    assert!(!s.contains_mut(70));
    assert!(s.to_chunks().len() >= 3);
    assert!(!s.contains(70));
}

#[test]
fn clear_removes_every_element_but_keeps_chunks() {
    let mut s = BitSet::default();
    s.insert(1);
    s.insert(33);
    s.insert(500);
    let chunks_before = s.to_chunks().len();
    s.clear();
    assert!(!s.contains(1));
    assert!(!s.contains(33));
    assert!(!s.contains(500));
    assert_eq!(s.to_chunks().len(), chunks_before);
    assert_eq!(s.iter(), Vec::<usize>::new());
}

#[test]
fn iter_yields_ascending_elements() {
    let mut s = BitSet::default();
    s.insert(100);
    s.insert(3);
    s.insert(7);
    assert_eq!(s.iter(), vec![3, 7, 100]);
}

#[test]
fn scenario_insert_iterate_remove() {
    let mut s = BitSet::default();
    assert!(s.insert(0));
    assert!(!s.insert(0));
    assert!(s.insert(42));
    assert_eq!(s.iter(), vec![0, 42]);
    assert!(s.remove(0));
    assert_eq!(s.iter(), vec![42]);
}

#[test]
fn boundary_elements_in_distinct_chunks() {
    let mut s = BitSet::default();
    assert!(s.insert(0));
    assert_eq!(s.to_chunks().len(), 1);
    assert!(s.insert(63));
    assert!(s.to_chunks().len() >= 2);
    assert!(s.contains(0));
    assert!(s.contains(63));
    assert!(!s.contains(31));
    assert!(!s.contains(32));
    assert!(s.remove(63));
    assert!(s.contains(0));
    assert!(!s.contains(63));
}

#[test]
fn intersection_with_shorter_set_empties_excess() {
    let mut s1 = BitSet::from_iter(&vec![0, 1]);
    let s2 = BitSet::from_iter(&vec![0, 42]);
    s1.bitand_assign(&s2);
    assert_eq!(s1.iter(), vec![0]);
}

#[test]
fn union_grows_to_cover_other_operand() {
    let mut s1 = BitSet::from_iter(&vec![0, 1]);
    let s2 = BitSet::from_iter(&vec![0, 42]);
    s1.bitor_assign(&s2);
    assert_eq!(s1.iter(), vec![0, 1, 42]);
}

#[test]
fn difference_leaves_chunks_beyond_other_operand() {
    let mut s1 = BitSet::from_iter(&vec![0, 1]);
    let s2 = BitSet::from_iter(&vec![0, 42]);
    s1.sub_assign(&s2);
    assert_eq!(s1.iter(), vec![1]);
}

#[test]
fn symmetric_difference_keeps_elements_in_exactly_one() {
    let mut s1 = BitSet::from_iter(&vec![0, 1]);
    let s2 = BitSet::from_iter(&vec![0, 42]);
    s1.bitxor_assign(&s2);
    assert_eq!(s1.iter(), vec![1, 42]);
}

#[test]
fn union_then_intersection_with_superset_is_stable() {
    let mut a = BitSet::from_iter(&vec![1, 2]);
    let b = BitSet::from_iter(&vec![1, 2, 3, 40]);
    a.bitor_assign(&b);
    let after_union = a.clone();
    a.bitand_assign(&b);
    assert!(a == after_union);
}

#[test]
fn symmetric_difference_with_self_empties() {
    let mut a = BitSet::from_iter(&vec![0, 31, 32, 95]);
    let chunks_before = a.to_chunks().len();
    let copy = a.clone();
    a.bitxor_assign(&copy);
    assert_eq!(a.iter(), Vec::<usize>::new());
    assert_eq!(a.to_chunks().len(), chunks_before);
}

#[test]
fn difference_with_self_empties() {
    let mut a = BitSet::from_iter(&vec![0, 31, 32, 95]);
    let chunks_before = a.to_chunks().len();
    let copy = a.clone();
    a.sub_assign(&copy);
    assert_eq!(a.iter(), Vec::<usize>::new());
    assert_eq!(a.to_chunks().len(), chunks_before);
}

#[test]
fn from_iter_collapses_duplicates_and_ignores_order() {
    let s = BitSet::from_iter(&vec![5, 5, 2, 5, 2]);
    assert_eq!(s.iter(), vec![2, 5]);
    let t = BitSet::from_iter(&vec![2, 5]);
    assert_eq!(t.iter(), vec![2, 5]);
}

#[test]
fn extend_inserts_all_listed_elements() {
    let mut s = BitSet::default();
    s.insert(1);
    s.extend(&vec![4, 1, 9]);
    assert_eq!(s.iter(), vec![1, 4, 9]);
}

#[test]
fn equality_is_chunkwise_not_logical() {
    let mut a = BitSet::default();
    a.insert(40);
    a.remove(40);
    let b = BitSet::default();
    // both are empty as sets, but a kept its grown chunks
    assert_eq!(a.iter(), Vec::<usize>::new());
    assert_eq!(b.iter(), Vec::<usize>::new());
    assert!(a != b);
    let mut c = BitSet::default();
    c.insert(40);
    c.remove(40);
    assert!(a == c);
}

#[test]
fn chunks_round_trip_restores_contents_and_capacity() {
    let mut s = BitSet::default();
    s.insert(9);
    s.insert(77);
    s.remove(9);
    let raw = s.to_chunks();
    let rebuilt = BitSet::from_chunks(raw);
    assert!(rebuilt == s);
    assert!(rebuilt.contains(77));
    assert!(!rebuilt.contains(9));
    assert_eq!(rebuilt.to_chunks().len(), s.to_chunks().len());
}
