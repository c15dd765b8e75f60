use std::collections::{BTreeMap, BTreeSet, HashMap, HashSet};
use std::iter::FromIterator;

#[test]
fn test_map() {
    let l: Vec<_> = [1, 2, 3].into_iter().collect();
    let r = vec![1, 2, 3];
    assert_eq!(l, r);

    let l: BTreeSet<_> = [1, 2, 3].into_iter().collect();
    let r: BTreeSet<_> = [1, 2, 3].iter().cloned().collect();
    assert_eq!(l, r);

    let l: HashSet<_> = [1, 2, 3].into_iter().collect();
    let r: HashSet<_> = [1, 2, 3].iter().cloned().collect();
    assert_eq!(l, r);

    let l: BTreeMap<_, _> = [(1, 2), (2, 3)].into_iter().collect();
    let r: BTreeMap<_, _> = BTreeMap::<i32, i32>::from_iter((1..=2).map(|n| (n, n + 1)));
    assert_eq!(l, r);

    let l: HashMap<_, _> = [(1, 2), (2, 3)].into_iter().collect();
    let r: HashMap<_, _> = HashMap::<i32, i32>::from_iter((1..=2).map(|n| (n, n + 1)));
    assert_eq!(l, r);
}
