use winnie_pooh::forest::DisjointForest;
use winnie_pooh::union_find::UnionFind;

#[test]
fn forest_partition() {
    let mut f = DisjointForest::new();
    for v in 1..=6 {
        f.make_set(v);
    }
    assert!(f.contains(3));
    assert!(!f.contains(7));
    f.union(1, 2);
    f.union(3, 4);
    f.union(2, 4);
    assert_eq!(f.find_set(1), f.find_set(3));
    assert_eq!(f.find_set(2).1, f.find_root(4).1);
    assert_ne!(f.find_set(1).1, f.find_set(5).1);
    assert_ne!(f.find_set(5).1, f.find_set(6).1);
    // Already joined: nothing changes.
    let before = f.find_set(1);
    f.union(4, 1);
    assert_eq!(f.find_set(1), before);
}

#[test]
fn forest_union_by_rank() {
    let mut f = DisjointForest::new();
    f.make_set(1);
    f.make_set(2);
    assert_eq!(f.find_root(1), (0, 1));
    // Equal ranks: u's root goes under v's, whose rank grows.
    f.union(1, 2);
    assert_eq!(f.find_root(1), (1, 2));
    f.make_set(3);
    // Lower rank goes under higher.
    f.union(2, 3);
    assert_eq!(f.find_root(3), (1, 2));
}

#[test]
fn union_find_partition() {
    let mut u = UnionFind::new();
    for v in 1..=4 {
        u.make_set(v);
    }
    assert!(u.contains(4));
    u.union(1, 2);
    assert_eq!(u.find(1), 2);
    u.union(3, 1);
    assert_eq!(u.find(3), u.find(2));
    assert_ne!(u.find(4), u.find(1));
}

#[test]
fn forest_union_of_joined_keeps_ranks() {
    let mut f = DisjointForest::new();
    for v in 1..=3 {
        f.make_set(v);
    }
    f.union(1, 2);
    f.union(3, 1);
    let before: Vec<(u32, u32)> = (1..=3).map(|v| f.find_root(v)).collect();
    f.union(1, 3);
    f.union(2, 2);
    let after: Vec<(u32, u32)> = (1..=3).map(|v| f.find_root(v)).collect();
    assert_eq!(before, after);
    assert_eq!(after[0], (1, 2));
}

#[test]
fn union_find_union_of_joined_is_no_op() {
    let mut u = UnionFind::new();
    u.make_set(1);
    u.make_set(2);
    u.union(1, 2);
    u.union(2, 1);
    u.union(1, 1);
    assert_eq!(u.find(1), 2);
    assert_eq!(u.find(2), 2);
}
