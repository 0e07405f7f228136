use pheap::{HeapElmt, PairingHeap, Prio};

fn create_heap(start: i32, end: i32) -> (PairingHeap<i32, i32>, Vec<HeapElmt>) {
    let mut ph = PairingHeap::<i32, i32>::new();
    let elmts: Vec<_> = (start..end).map(|ii| ph.insert(ii, ii)).collect();
    (ph, elmts)
}

fn drain(ph: &mut PairingHeap<i32, i32>) -> Vec<(i32, i32)> {
    let mut out = Vec::new();
    while let Some(kp) = ph.delete_min() {
        out.push(kp);
    }
    out
}

#[test]
fn create_insert() {
    let mut ph = PairingHeap::<i32, i32>::new();
    assert_eq!(0, ph.len());
    assert!(ph.is_empty());

    for ii in 1..=10 {
        ph.insert(ii, ii);
    }

    assert_eq!(10, ph.len());
}

#[test]
fn find_min() {
    let (ph, _) = create_heap(0, 0);
    assert!(ph.find_min().is_none());

    let (ph, _) = create_heap(1, 11);
    let min = ph.find_min();
    assert!(min.is_some());
    let (k, _) = min.unwrap();
    assert_eq!(1, *k);

    let min_prio = ph.find_min();
    assert!(min_prio.is_some());
    let (k, p) = min_prio.unwrap();
    assert_eq!(1, *k);
    assert_eq!(1, *p);
}

#[test]
fn merge() {
    let ph1 = create_heap(1, 11).0;
    let len1 = ph1.len();
    let ph2 = create_heap(11, 21).0;
    let len2 = ph2.len();

    let ph = ph2.merge(ph1);
    println!("Len: {}", ph.len());
    assert_eq!(len1 + len2, ph.len());
    let min_prio = ph.find_min();
    assert!(min_prio.is_some());
    let (k, p) = min_prio.unwrap();
    assert_eq!(1, *k);
    assert_eq!(1, *p);
}

#[test]
fn delete_min() {
    let (mut ph, _) = create_heap(1, 11);
    let mut len = ph.len();
    let mut tracker = 1;

    while len != 0 {
        let min_prio = ph.find_min();
        assert!(min_prio.is_some());
        let (k, p) = min_prio.unwrap();
        let (k, p) = (*k, *p);
        assert_eq!(tracker, p);
        tracker += 1;

        let del_prio = ph.delete_min();
        assert!(del_prio.is_some());
        let (kt, pt) = del_prio.unwrap();
        assert_eq!(k, kt);
        assert_eq!(p, pt);

        len = ph.len();
    }

    assert!(ph.find_min().is_none());
    assert_eq!(0, ph.len());
}

#[test]
fn decrease_prio() {
    let (mut ph, _) = create_heap(1, 11);

    ph.delete_min();
    ph.decrease_prio(&8, 4);
    ph.decrease_prio(&6, 3);
    ph.decrease_prio(&9, 3);
    ph.decrease_prio(&10, 2);

    let mut len = ph.len();
    let mut count = 0;

    let key_exp = vec![2, 6, 3, 8, 4, 5, 9, 7, 10];
    let prio_exp = vec![2, 3, 3, 4, 4, 5, 6, 7, 8];

    while len != 0 {
        let del_prio = ph.delete_min();
        assert!(del_prio.is_some());
        let (k, p) = del_prio.unwrap();
        assert_eq!(
            key_exp[count], k,
            "Check key: Expected: {} | Got: {}",
            key_exp[count], k
        );
        assert_eq!(
            prio_exp[count], p,
            "Check prio for key {}: Expected: {} | Got: {}",
            k, prio_exp[count], p
        );

        len = ph.len();
        count += 1;
    }
}

#[test]
fn update_prio() {
    let (mut ph, v) = create_heap(1, 11);

    ph.delete_min();

    ph.update_prio(&v[7], 4);
    ph.update_prio(&v[5], 3);
    ph.update_prio(&v[8], 6);
    ph.update_prio(&v[9], 8);

    let key_exp = vec![2, 6, 3, 8, 4, 5, 9, 7, 10];
    let prio_exp = vec![2, 3, 3, 4, 4, 5, 6, 7, 8];

    let mut len = ph.len();
    let mut count = 0;

    while len != 0 {
        let del_prio = ph.delete_min();
        assert!(del_prio.is_some());
        let (k, p) = del_prio.unwrap();
        assert_eq!(
            key_exp[count], k,
            "Check key: Expected: {} | Got: {}",
            key_exp[count], k
        );
        assert_eq!(
            prio_exp[count], p,
            "Check prio for key {}: Expected: {} | Got: {}",
            k, prio_exp[count], p
        );

        len = ph.len();
        count += 1;
    }
}

#[test]
fn drain_is_sorted() {
    let mut ph = PairingHeap::<i32, i32>::new();
    for p in [5, 1, 4, 2, 3] {
        ph.insert(p * 10, p);
    }
    let out = drain(&mut ph);
    assert_eq!(out, vec![(10, 1), (20, 2), (30, 3), (40, 4), (50, 5)]);
    assert!(ph.is_empty());
    assert_eq!(ph.delete_min(), None);
}

#[test]
fn drain_of_many_is_sorted() {
    let mut ph = PairingHeap::<u32, u32>::new();
    let mut x: u32 = 12345;
    let mut expect = Vec::new();
    for _ in 0..500 {
        x = x.wrapping_mul(1664525).wrapping_add(1013904223);
        let p = x >> 20;
        ph.insert(p, p);
        expect.push(p);
    }
    expect.sort();
    let mut got = Vec::new();
    while let Some((_, p)) = ph.delete_min() {
        got.push(p);
    }
    assert_eq!(got, expect);
}

#[test]
fn later_of_equal_priorities_wins() {
    let mut ph = PairingHeap::<i32, i32>::new();
    ph.insert(1, 5);
    ph.insert(2, 5);
    assert_eq!(ph.find_min(), Some((&2, &5)));
    ph.insert(3, 4);
    assert_eq!(ph.find_min(), Some((&3, &4)));
    ph.insert(4, 6);
    assert_eq!(ph.find_min(), Some((&3, &4)));
}

#[test]
fn len_counts_inserts_minus_deletes() {
    let mut ph = PairingHeap::<i32, i32>::default();
    for i in 0..7 {
        ph.insert(i, 7 - i);
        assert_eq!(ph.len(), (i + 1) as usize);
    }
    for i in 0..7 {
        assert!(ph.delete_min().is_some());
        assert_eq!(ph.len(), (6 - i) as usize);
    }
    assert!(ph.delete_min().is_none());
    assert_eq!(ph.len(), 0);
}

#[test]
fn merge_adds_sizes_and_drains() {
    let a = create_heap(1, 11).0;
    let b = create_heap(11, 21).0;
    let mut m = a.merge(b);
    assert_eq!(m.len(), 20);
    assert_eq!(m.find_min(), Some((&1, &1)));
    let out: Vec<i32> = drain(&mut m).into_iter().map(|kp| kp.1).collect();
    assert_eq!(out, (1..21).collect::<Vec<i32>>());
}

#[test]
fn merge_with_empty() {
    let a = create_heap(0, 0).0;
    let b = create_heap(3, 6).0;
    let mut m = a.merge(b);
    assert_eq!(m.len(), 3);
    assert_eq!(drain(&mut m), vec![(3, 3), (4, 4), (5, 5)]);
    let c = create_heap(3, 6).0;
    let d = create_heap(0, 0).0;
    let mut m = c.merge(d);
    assert_eq!(drain(&mut m), vec![(3, 3), (4, 4), (5, 5)]);
    let e = create_heap(0, 0).0.merge(create_heap(0, 0).0);
    assert!(e.is_empty());
}

#[test]
fn merge_ties_go_to_the_receiver() {
    let mut a = PairingHeap::<i32, i32>::new();
    a.insert(1, 5);
    let mut b = PairingHeap::<i32, i32>::new();
    b.insert(2, 5);
    let mut m = a.merge(b);
    assert_eq!(m.find_min(), Some((&1, &5)));
    assert_eq!(m.delete_min(), Some((1, 5)));
    assert_eq!(m.delete_min(), Some((2, 5)));
    let mut c = PairingHeap::<i32, i32>::new();
    c.insert(3, 9);
    let mut d = PairingHeap::<i32, i32>::new();
    d.insert(4, 8);
    assert_eq!(c.merge(d).find_min(), Some((&4, &8)));
}

#[test]
fn handles_of_the_receiver_survive_a_merge() {
    let (a, ha) = create_heap(10, 15);
    let (b, _) = create_heap(1, 5);
    let mut m = a.merge(b);
    assert!(ha.iter().all(|h| m.is_live(h)));
    m.update_prio(&ha[4], 0);
    assert_eq!(m.find_min(), Some((&14, &0)));
}

#[test]
fn handles_stay_live_until_their_node_leaves() {
    let (mut ph, hs) = create_heap(1, 6);
    assert!(hs.iter().all(|h| ph.is_live(h)));
    assert_eq!(ph.delete_min(), Some((1, 1)));
    assert!(!ph.is_live(&hs[0]));
    assert!(hs[1..].iter().all(|h| ph.is_live(h)));
    ph.insert(9, 9);
    ph.update_prio(&hs[3], 0);
    assert!(hs[1..].iter().all(|h| ph.is_live(h)));
    assert_eq!(ph.delete_min(), Some((4, 0)));
    assert!(!ph.is_live(&hs[3]));
}

#[test]
fn a_reused_slot_does_not_revive_a_handle() {
    let mut ph = PairingHeap::<i32, i32>::new();
    let h1 = ph.insert(1, 1);
    assert_eq!(ph.delete_min(), Some((1, 1)));
    let h2 = ph.insert(2, 2);
    assert!(!ph.is_live(&h1));
    assert!(ph.is_live(&h2));
    ph.update_prio(&h1, 0);
    assert_eq!(ph.find_min(), Some((&2, &2)));
    ph.update_prio(&h2, 1);
    assert_eq!(ph.find_min(), Some((&2, &1)));
}

#[test]
fn retired_and_unset_handles_are_ignored() {
    let (mut ph, mut hs) = create_heap(1, 4);
    assert!(!hs[2].is_none());
    hs[2].none();
    assert!(hs[2].is_none());
    assert!(!ph.is_live(&hs[2]));
    ph.update_prio(&hs[2], 0);
    assert_eq!(ph.find_min(), Some((&1, &1)));
    let unset = HeapElmt::default();
    assert!(unset.is_none());
    ph.update_prio(&unset, 0);
    assert_eq!(drain(&mut ph), vec![(1, 1), (2, 2), (3, 3)]);
}

#[test]
fn raising_a_priority_changes_nothing() {
    let (mut ph, hs) = create_heap(1, 6);
    ph.update_prio(&hs[1], 9);
    ph.update_prio(&hs[0], 3);
    assert_eq!(
        drain(&mut ph),
        vec![(1, 1), (2, 2), (3, 3), (4, 4), (5, 5)]
    );
}

#[test]
fn lowering_reaches_the_root() {
    let (mut ph, hs) = create_heap(1, 11);
    ph.update_prio(&hs[6], -3);
    assert_eq!(ph.find_min(), Some((&7, &-3)));
    ph.update_prio(&hs[6], -5);
    assert_eq!(ph.find_min(), Some((&7, &-5)));
    ph.update_prio(&hs[2], -4);
    assert_eq!(ph.find_min(), Some((&7, &-5)));
    assert_eq!(ph.len(), 10);
    let out: Vec<i32> = drain(&mut ph).into_iter().map(|kp| kp.0).collect();
    assert_eq!(out, vec![7, 3, 1, 2, 4, 5, 6, 8, 9, 10]);
}

#[test]
fn lowering_to_the_parents_priority_keeps_the_place() {
    let mut ph = PairingHeap::<i32, i32>::new();
    let _a = ph.insert(1, 1);
    let b = ph.insert(2, 5);
    let _c = ph.insert(3, 7);
    ph.update_prio(&b, 1);
    assert_eq!(ph.find_min(), Some((&1, &1)));
    assert_eq!(drain(&mut ph), vec![(1, 1), (2, 1), (3, 7)]);
}

#[test]
fn decrease_by_key_without_a_match_or_room() {
    let mut ph = PairingHeap::<u32, u32>::new();
    ph.insert(1, 3);
    ph.insert(2, 8);
    ph.decrease_prio(&7, 1);
    ph.decrease_prio(&1, 5);
    assert_eq!(ph.find_min(), Some((&1, &3)));
    ph.decrease_prio(&2, 8);
    assert_eq!(ph.find_min(), Some((&2, &0)));
    assert_eq!(ph.len(), 2);
}

#[test]
fn decrease_by_key_with_a_negative_amount() {
    let mut ph = PairingHeap::<i32, i32>::new();
    ph.insert(1, 3);
    ph.insert(2, 8);
    ph.decrease_prio(&1, -10);
    assert_eq!(ph.find_min(), Some((&1, &3)));
    ph.decrease_prio(&2, i32::MIN);
    assert_eq!(ph.delete_min(), Some((1, 3)));
    assert_eq!(ph.delete_min(), Some((2, 8)));
}

#[test]
fn priorities_compare_by_rank() {
    assert!(3i32.below(&4));
    assert!(!4i32.below(&4));
    assert!((-1i64).below(&0));
    assert!(1u32.below(&2));
    assert!(!2u64.below(&1));
    assert!(0usize.below(&1));
    assert_eq!(7i32.lower(&9), Some(-2));
    assert_eq!(i32::MIN.lower(&1), None);
    assert_eq!(7i64.lower(&-1), Some(8));
    assert_eq!(i64::MAX.lower(&-1), None);
    assert_eq!(7u32.lower(&7), Some(0));
    assert_eq!(7u32.lower(&8), None);
    assert_eq!(9u64.lower(&4), Some(5));
    assert_eq!(0u64.lower(&1), None);
    assert_eq!(9usize.lower(&4), Some(5));
    assert_eq!(3usize.lower(&4), None);
}
