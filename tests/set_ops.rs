use roc_set::IntSet;

fn sorted(mut v: Vec<i64>) -> Vec<i64> {
    v.sort();
    v
}

#[test]
fn empty_len() {
    assert_eq!(IntSet::empty().len(), 0);
}

#[test]
fn singleton_len() {
    assert_eq!(IntSet::singleton(42).len(), 1);
}

#[test]
fn singleton_to_list() {
    assert_eq!(IntSet::singleton(42).to_list(), vec![42]);
    assert_eq!(IntSet::singleton(1).to_list(), vec![1]);

    let bits = IntSet::singleton(1.0f64.to_bits() as i64).to_list();
    let floats: Vec<f64> = bits.iter().map(|b| f64::from_bits(*b as u64)).collect();
    assert_eq!(floats, vec![1.0]);
}

#[test]
fn insert() {
    let s = IntSet::empty().insert(0).insert(1).insert(2);
    assert_eq!(s.to_list(), vec![0, 1, 2]);
}

#[test]
fn remove() {
    let s = IntSet::empty().insert(0).insert(1).remove(1).remove(2);
    assert_eq!(s.to_list(), vec![0]);
}

#[test]
fn union() {
    let set1 = IntSet::from_list(&vec![1, 2]);
    let set2 = IntSet::from_list(&vec![1, 3, 4]);
    let u = set1.union(set2);
    assert_eq!(sorted(u.to_list()), sorted(vec![4, 2, 3, 1]));
}

#[test]
fn difference() {
    let set1 = IntSet::from_list(&vec![1, 2]);
    let set2 = IntSet::from_list(&vec![1, 3, 4]);
    assert_eq!(set1.difference(&set2).to_list(), vec![2]);
}

#[test]
fn intersection() {
    let set1 = IntSet::from_list(&vec![1, 2]);
    let set2 = IntSet::from_list(&vec![1, 3, 4]);
    assert_eq!(set1.intersection(&set2).to_list(), vec![1]);
}

#[test]
fn walk_sum() {
    let s = IntSet::from_list(&vec![1, 2, 3]);
    assert_eq!(s.walk(|x: i64, y: i64| x + y, 0), 6);
}

#[test]
fn contains() {
    assert_eq!(IntSet::from_list(&vec![1, 3, 4]).contains(4), true);
    assert_eq!(IntSet::from_list(&vec![1, 3, 4]).contains(2), false);
}

#[test]
fn from_list() {
    let empty_list: Vec<i64> = vec![];

    let s = IntSet::from_list(&vec![1, 2, 2, 3, 1, 4]);
    assert_eq!(sorted(s.to_list()), sorted(vec![4, 2, 3, 1]));

    assert_eq!(IntSet::from_list(&vec![]).to_list(), empty_list);

    let empty: Vec<i64> = vec![];
    assert_eq!(IntSet::from_list(&empty).to_list(), empty_list);
}
