use arena_list::{Addr, Arena, Elem};

#[test]
fn null_handle_is_null() {
    let h = Addr::<Elem>::null();
    assert!(h.is_null());
    assert_eq!(h.index(), 0);
    assert!(Addr::<Elem>::from_index(0).is_null());
}

#[test]
fn new_handle_keeps_its_index() {
    let h = Addr::<Elem>::new(5);
    assert!(!h.is_null());
    assert_eq!(h.index(), 5);
    assert_eq!(Addr::<Elem>::from_index(7).index(), 7);
}

#[test]
fn allocations_without_free_are_distinct_and_non_null() {
    let mut a = Arena::<Elem>::new(0);
    let mut seen: Vec<usize> = Vec::new();
    for v in 0..20 {
        let h = a.allocate(Elem::new(v));
        assert!(!h.is_null());
        assert!(!seen.contains(&h.index()));
        seen.push(h.index());
    }
    assert_eq!(seen, (1..=20).collect::<Vec<usize>>());
}

#[test]
fn allocations_after_frees_are_distinct() {
    let mut a = Arena::<Elem>::new(4);
    let h1 = a.allocate(Elem::new(1));
    let h2 = a.allocate(Elem::new(2));
    let _h3 = a.allocate(Elem::new(3));
    a.free(h1);
    a.free(h2);
    let x = a.allocate(Elem::new(10));
    let y = a.allocate(Elem::new(11));
    let z = a.allocate(Elem::new(12));
    assert_eq!(x.index(), 2);
    assert_eq!(y.index(), 1);
    assert_eq!(z.index(), 4);
}

#[test]
fn freed_handle_is_reused_first() {
    let mut a = Arena::<Elem>::new(0);
    let ha = a.allocate(Elem::new(1));
    a.free(ha);
    let hb = a.allocate(Elem::new(2));
    assert_eq!(hb.index(), ha.index());
    assert_eq!(a.get(hb).val, 2);
}

#[test]
fn free_list_is_last_in_first_out() {
    let mut a = Arena::<Elem>::new(0);
    let h1 = a.allocate(Elem::new(1));
    let h2 = a.allocate(Elem::new(2));
    a.free(h1);
    a.free(h2);
    assert_eq!(a.allocate(Elem::new(3)).index(), h2.index());
    assert_eq!(a.allocate(Elem::new(4)).index(), h1.index());
    assert_eq!(a.allocate(Elem::new(5)).index(), 3);
}

#[test]
fn freed_slot_keeps_its_value_until_reused() {
    let mut a = Arena::<Elem>::new(0);
    let h = a.allocate(Elem::new(9));
    a.free(h);
    assert_eq!(a.get(h).val, 9);
}

#[test]
fn get_mut_changes_the_slot_in_place() {
    let mut a = Arena::<Elem>::new(0);
    let h1 = a.allocate(Elem::new(1));
    let h2 = a.allocate(Elem::new(2));
    a.get_mut(h1).val = 100;
    assert_eq!(a.get(h1).val, 100);
    assert_eq!(a.get(h2).val, 2);
}
