use arena_list::{values, Addr, Arena, Elem, List, ListLinks};

fn indices(hs: &[Addr<Elem>]) -> Vec<usize> {
    hs.iter().map(|h| h.index()).collect()
}

fn assert_traversals_agree(l: &List<Elem>, a: &Arena<Elem>) {
    let mut fwd = indices(&l.handles(a));
    let bwd = indices(&l.handles_rev(a));
    fwd.reverse();
    assert_eq!(fwd, bwd);
}

#[test]
fn insertions_build_the_expected_order() {
    let mut a = Arena::<Elem>::new(0);
    let mut l = List::<Elem>::new();
    let h1 = a.allocate(Elem::new(1));
    let h2 = a.allocate(Elem::new(2));
    let h3 = a.allocate(Elem::new(3));
    l.push_front(&mut a, h2);
    assert_eq!(values(&l, &a), vec![2]);
    l.push_front(&mut a, h1);
    assert_eq!(values(&l, &a), vec![1, 2]);
    l.push_back(&mut a, h3);
    assert_eq!(values(&l, &a), vec![1, 2, 3]);
    assert_eq!(l.head().index(), h1.index());
    assert_eq!(l.tail().index(), h3.index());
}

#[test]
fn removing_the_middle_keeps_the_order() {
    let mut a = Arena::<Elem>::new(0);
    let mut l = List::<Elem>::new();
    let h1 = a.allocate(Elem::new(1));
    let h2 = a.allocate(Elem::new(2));
    let h3 = a.allocate(Elem::new(3));
    l.push_back(&mut a, h1);
    l.push_back(&mut a, h2);
    l.push_back(&mut a, h3);
    l.remove(&mut a, h2);
    assert_eq!(values(&l, &a), vec![1, 3]);
    assert_eq!(a.get(h1).next, h3.index());
    assert_eq!(a.get(h3).prev, h1.index());
}

#[test]
fn removed_element_is_unlinked_and_kept() {
    let mut a = Arena::<Elem>::new(0);
    let mut l = List::<Elem>::new();
    let h1 = a.allocate(Elem::new(1));
    let h2 = a.allocate(Elem::new(2));
    let h3 = a.allocate(Elem::new(3));
    l.push_back(&mut a, h1);
    l.push_back(&mut a, h2);
    l.push_back(&mut a, h3);
    l.remove(&mut a, h2);
    let (prev, next) = a.get(h2).get_links();
    assert!(prev.is_null());
    assert!(next.is_null());
    assert_eq!(a.get(h2).val, 2);
}

#[test]
fn removing_head_and_tail_moves_them() {
    let mut a = Arena::<Elem>::new(0);
    let mut l = List::<Elem>::new();
    let h1 = a.allocate(Elem::new(1));
    let h2 = a.allocate(Elem::new(2));
    let h3 = a.allocate(Elem::new(3));
    l.push_back(&mut a, h1);
    l.push_back(&mut a, h2);
    l.push_back(&mut a, h3);
    l.remove(&mut a, h1);
    assert_eq!(l.head().index(), h2.index());
    assert!(a.get(h2).prev_addr().is_null());
    l.remove(&mut a, h3);
    assert_eq!(l.tail().index(), h2.index());
    assert!(a.get(h2).next_addr().is_null());
    assert_eq!(values(&l, &a), vec![2]);
}

#[test]
fn removing_every_element_empties_the_list() {
    let mut a = Arena::<Elem>::new(0);
    let mut l = List::<Elem>::new();
    let hs: Vec<Addr<Elem>> = (1..=4).map(|v| a.allocate(Elem::new(v))).collect();
    for h in &hs {
        l.push_back(&mut a, *h);
    }
    l.remove(&mut a, hs[2]);
    l.remove(&mut a, hs[0]);
    l.remove(&mut a, hs[3]);
    l.remove(&mut a, hs[1]);
    assert!(l.head().is_null());
    assert!(l.tail().is_null());
    assert!(values(&l, &a).is_empty());
    assert!(l.handles(&a).is_empty());
    assert!(l.handles_rev(&a).is_empty());
}

#[test]
fn new_list_is_empty() {
    let a = Arena::<Elem>::new(0);
    let l = List::<Elem>::new();
    assert!(l.head().is_null());
    assert!(l.tail().is_null());
    assert!(values(&l, &a).is_empty());
}

#[test]
fn push_back_on_empty_sets_both_ends() {
    let mut a = Arena::<Elem>::new(0);
    let mut l = List::<Elem>::new();
    let h = a.allocate(Elem::new(7));
    l.push_back(&mut a, h);
    assert_eq!(l.head().index(), h.index());
    assert_eq!(l.tail().index(), h.index());
    assert_eq!(values(&l, &a), vec![7]);
}

#[test]
fn forward_and_backward_traversals_agree() {
    let mut a = Arena::<Elem>::new(0);
    let mut l = List::<Elem>::new();
    let hs: Vec<Addr<Elem>> = (1..=5).map(|v| a.allocate(Elem::new(v))).collect();
    assert_traversals_agree(&l, &a);
    l.push_front(&mut a, hs[2]);
    assert_traversals_agree(&l, &a);
    l.push_back(&mut a, hs[4]);
    l.push_front(&mut a, hs[0]);
    l.push_back(&mut a, hs[1]);
    assert_traversals_agree(&l, &a);
    assert_eq!(indices(&l.handles(&a)), vec![1, 3, 5, 2]);
    assert_eq!(indices(&l.handles_rev(&a)), vec![2, 5, 3, 1]);
    l.remove(&mut a, hs[4]);
    assert_traversals_agree(&l, &a);
    l.push_front(&mut a, hs[3]);
    assert_traversals_agree(&l, &a);
    assert_eq!(values(&l, &a), vec![4, 1, 3, 2]);
}

#[test]
fn element_can_be_relinked_after_removal() {
    let mut a = Arena::<Elem>::new(0);
    let mut l = List::<Elem>::new();
    let h1 = a.allocate(Elem::new(1));
    let h2 = a.allocate(Elem::new(2));
    l.push_back(&mut a, h1);
    l.push_back(&mut a, h2);
    l.remove(&mut a, h1);
    l.push_back(&mut a, h1);
    assert_eq!(values(&l, &a), vec![2, 1]);
}

#[test]
fn driver_scenario() {
    let mut a = Arena::<Elem>::new(0);
    let mut l = List::<Elem>::new();
    let e1 = a.allocate(Elem::new(1));
    let e2 = a.allocate(Elem::new(2));
    let e3 = a.allocate(Elem::new(3));
    l.push_front(&mut a, e2);
    assert_eq!(values(&l, &a), vec![2]);
    l.push_front(&mut a, e1);
    assert_eq!(values(&l, &a), vec![1, 2]);
    l.push_back(&mut a, e3);
    assert_eq!(values(&l, &a), vec![1, 2, 3]);
    l.remove(&mut a, e2);
    assert_eq!(values(&l, &a), vec![1, 3]);
    l.remove(&mut a, e1);
    assert_eq!(values(&l, &a), vec![3]);
    l.remove(&mut a, e3);
    assert_eq!(values(&l, &a), Vec::<i32>::new());
}
