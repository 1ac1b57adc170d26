use default_vec2::DefaultVec;

#[test]
fn grow_on_mutable_access_and_read_back() {
    let mut v: DefaultVec<u64> = DefaultVec::default();
    *v.get_mut(100) += 5;
    assert_eq!(v.get(100), 5);
    assert_eq!(v.get(50), 0);
    assert!(v.capacity() >= 101);
}

#[test]
fn get_out_of_range_is_default_and_never_grows() {
    let v: DefaultVec<u32> = DefaultVec::default();
    assert_eq!(v.capacity(), 0);
    assert_eq!(v.get(10), 0);
    assert_eq!(v.capacity(), 0);
}

#[test]
fn clear_resets_slots_but_keeps_capacity() {
    let mut v: DefaultVec<u32> = DefaultVec::default();
    *v.get_mut(3) = 7;
    *v.get_mut(9) = 11;
    let cap = v.capacity();
    v.clear();
    assert_eq!(v.capacity(), cap);
    assert_eq!(v.get(3), 0);
    assert_eq!(v.get(9), 0);
}

#[test]
fn capacity_never_shrinks() {
    let mut v: DefaultVec<u32> = DefaultVec::default();
    *v.get_mut(20) = 1;
    let cap = v.capacity();
    *v.get_mut(2) = 1;
    assert!(v.capacity() >= cap);
    v.clear();
    assert!(v.capacity() >= cap);
}

#[test]
fn iter_yields_exactly_capacity_values_in_order() {
    let mut v: DefaultVec<u32> = DefaultVec::default();
    *v.get_mut(0) = 10;
    *v.get_mut(2) = 30;
    let vals = v.iter();
    assert_eq!(vals.len(), v.capacity());
    assert_eq!(vals[0], 10);
    assert_eq!(vals[1], 0);
    assert_eq!(vals[2], 30);
}

#[test]
fn from_slots_round_trips_contents_and_capacity() {
    let mut v: DefaultVec<u32> = DefaultVec::default();
    *v.get_mut(5) = 99;
    let raw = v.iter();
    let rebuilt: DefaultVec<u32> = DefaultVec::from_slots(raw);
    assert_eq!(rebuilt.capacity(), v.capacity());
    assert_eq!(rebuilt.get(5), 99);
    assert_eq!(rebuilt.get(0), 0);
}

#[test]
fn reserve_fills_new_slots_with_default() {
    let mut v: DefaultVec<u64> = DefaultVec::default();
    v.reserve(4);
    assert!(v.capacity() >= 5);
    for i in 0..v.capacity() {
        assert_eq!(v.get(i), 0);
    }
}
