use roc_set::{IntSet, MIN_CAPACITY};

fn sorted(mut v: Vec<i64>) -> Vec<i64> {
    v.sort();
    v
}

#[test]
fn empty_contains_nothing() {
    let s = IntSet::empty();
    for x in [-5i64, 0, 1, 42, i64::MIN, i64::MAX] {
        assert!(!s.contains(x));
    }
    assert_eq!(s.to_list(), Vec::<i64>::new());
}

#[test]
fn insert_twice_is_insert_once() {
    let base = IntSet::from_list(&vec![3, 9, -4]);
    let once = base.duplicate().insert(7);
    let twice = base.insert(7).insert(7);
    assert_eq!(once.to_list(), twice.to_list());
    assert_eq!(once.len(), twice.len());
    assert_eq!(twice.len(), 4);
}

#[test]
fn removing_absent_changes_nothing() {
    let s = IntSet::from_list(&vec![10, 20, 30]);
    let before = s.to_list();
    let after = s.remove(99);
    assert_eq!(after.to_list(), before);
    assert_eq!(after.len(), 3);
}

#[test]
fn round_trip_keeps_distinct_values_once() {
    let xs = vec![5, -1, 5, 7, -1, -1, 12, 0];
    let out = IntSet::from_list(&xs).to_list();
    assert_eq!(sorted(out), vec![-1, 0, 5, 7, 12]);
    let reordered = IntSet::from_list(&vec![12, 0, 7, -1, 5]).to_list();
    assert_eq!(sorted(reordered), vec![-1, 0, 5, 7, 12]);
}

#[test]
fn list_length_matches_len() {
    let s = IntSet::from_list(&vec![1, 1, 2, 3, 5, 8, 13, 21]);
    assert_eq!(s.to_list().len(), s.len());
    assert_eq!(s.len(), 7);
}

#[test]
fn contains_agrees_with_list() {
    let s = IntSet::from_list(&vec![-3, 0, 17, 100000, i64::MIN]);
    let l = s.to_list();
    for x in -5i64..20 {
        assert_eq!(s.contains(x), l.contains(&x));
    }
    assert!(s.contains(i64::MIN));
    assert!(s.contains(100000));
}

#[test]
fn union_length_and_difference_plus_intersection() {
    let a = IntSet::from_list(&vec![1, 2, 3, 4, 5]);
    let b = IntSet::from_list(&vec![4, 5, 6, 7]);
    let inter = a.intersection(&b);
    let diff = a.difference(&b);
    assert_eq!(inter.len(), 2);
    let u = a.duplicate().union(b);
    assert_eq!(u.len(), 5 + 4 - 2);
    assert_eq!(sorted(u.to_list()), vec![1, 2, 3, 4, 5, 6, 7]);
    let back = diff.union(inter);
    assert_eq!(sorted(back.to_list()), sorted(a.to_list()));
}

#[test]
fn walk_sum_ignores_construction_order() {
    let a = IntSet::from_list(&vec![1, 9, 17, 25, 2]);
    let b = IntSet::from_list(&vec![2, 25, 17, 9, 1]);
    let add = |acc: i64, x: i64| acc + x;
    assert_eq!(a.walk(add, 0), 54);
    assert_eq!(b.walk(add, 0), 54);
}

#[test]
fn walk_follows_enumeration_order() {
    let s = IntSet::from_list(&vec![3, 1, 2]);
    let order = s.walk(
        |mut acc: Vec<i64>, x: i64| {
            acc.push(x);
            acc
        },
        Vec::new(),
    );
    assert_eq!(order, s.to_list());
}

#[test]
fn colliding_keys_are_all_found() {
    // 0, 8 and 16 share a home slot in a table of the minimum capacity.
    assert_eq!(MIN_CAPACITY, 8);
    let s = IntSet::empty().insert(0).insert(8).insert(16);
    assert!(s.contains(0) && s.contains(8) && s.contains(16));
    let s = s.remove(8);
    assert!(s.contains(16));
    assert!(!s.contains(8));
    let s = s.insert(24);
    assert_eq!(sorted(s.to_list()), vec![0, 16, 24]);
}

#[test]
fn enumeration_depends_on_insertion_order_under_collisions() {
    let a = IntSet::empty().insert(0).insert(8);
    let b = IntSet::empty().insert(8).insert(0);
    assert_eq!(a.to_list(), vec![0, 8]);
    assert_eq!(b.to_list(), vec![8, 0]);
}

#[test]
fn same_membership_without_collisions_enumerates_alike() {
    let a = IntSet::empty().insert(3).insert(1).insert(2);
    let b = IntSet::empty().insert(2).insert(9).insert(3).remove(9).insert(1);
    assert_eq!(a.to_list(), b.to_list());
}

#[test]
fn growth_keeps_every_element() {
    let mut s = IntSet::empty();
    for i in 0..1000i64 {
        s = s.insert(i * 7 - 3000);
    }
    assert_eq!(s.len(), 1000);
    for i in 0..1000i64 {
        assert!(s.contains(i * 7 - 3000));
        assert!(!s.contains(i * 7 - 2999));
    }
    for i in 0..500i64 {
        s = s.remove(i * 7 - 3000);
    }
    assert_eq!(s.len(), 500);
    assert!(!s.contains(-3000));
    assert!(s.contains(499 * 7 + 7 - 3000));
}

#[test]
fn copies_are_independent() {
    let a = IntSet::from_list(&vec![1, 2, 3]);
    let b = a.duplicate().insert(4).remove(1);
    assert_eq!(sorted(a.to_list()), vec![1, 2, 3]);
    assert_eq!(sorted(b.to_list()), vec![2, 3, 4]);
}

#[test]
fn negative_and_extreme_keys() {
    let s = IntSet::from_list(&vec![i64::MIN, -1, i64::MAX, -1]);
    assert_eq!(s.len(), 3);
    assert_eq!(sorted(s.to_list()), vec![i64::MIN, -1, i64::MAX]);
}
