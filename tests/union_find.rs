use pathfinding_graph::union_find::UnionFind;

#[test]
fn union_find_with_zero_edges_should_succeed() {
    let union_find = UnionFind::from(0);

    assert_eq!(0, union_find.components)
}

#[test]
fn unify_should_decrease_components() {
    let mut union_find = UnionFind::from(2);

    assert_eq!(2, union_find.components);

    union_find.unify(0, 1);
    assert_eq!(1, union_find.components);
    assert_eq!(2, union_find.size(0));
    assert_eq!(0, union_find.parent(1));
}

#[test]
fn test_find() {
    let mut union_find = UnionFind::from(5);
    union_find.unify(0, 1);
    union_find.unify(1, 2);

    assert_eq!(0, union_find.find(2));
}

#[test]
fn test_connected() {
    let mut union_find = UnionFind::from(5);
    union_find.unify(0, 1);
    union_find.unify(3, 4);

    assert!(union_find.connected(0, 1));
    assert!(union_find.connected(3, 4));
    assert!(!union_find.connected(0, 4));
}

#[test]
fn test_unify() {
    let mut union_find = UnionFind::from(4);
    union_find.unify(0, 1);

    assert_eq!(2, union_find.size(0));
    assert_eq!(1, union_find.size(1));
    assert_eq!(1, union_find.size(2));
    assert_eq!(1, union_find.size(3));
}

#[test]
fn test_unify_multiple_groups() {
    let mut union_find = UnionFind::from(6);
    union_find.unify(0, 1);
    union_find.unify(1, 2);
    union_find.unify(3, 4);

    assert_eq!(3, union_find.size(0));
    assert_eq!(1, union_find.size(1));
    assert_eq!(1, union_find.size(2));
    assert_eq!(2, union_find.size(3));
    assert_eq!(1, union_find.size(4));
    assert_eq!(1, union_find.size(5));
}

#[test]
fn test_components() {
    let mut union_find = UnionFind::from(5);
    assert_eq!(5, union_find.components);

    union_find.unify(0, 1);
    assert_eq!(4, union_find.components);

    union_find.unify(1, 2);
    assert_eq!(3, union_find.components);

    union_find.unify(3, 4);
    assert_eq!(2, union_find.components);
}

#[test]
fn unify_within_one_set_keeps_components() {
    let mut union_find = UnionFind::from(4);
    union_find.unify(0, 1);
    union_find.unify(1, 0);
    union_find.unify(0, 0);

    assert_eq!(3, union_find.components);
}

#[test]
fn components_count_successful_unions_only() {
    let mut union_find = UnionFind::from(6);
    let pairs = [(0, 1), (1, 2), (2, 0), (3, 4), (4, 3), (5, 5), (0, 4)];
    let mut joined = 0;
    for (p, q) in pairs {
        if !union_find.connected(p, q) {
            joined += 1;
        }
        union_find.unify(p, q);
    }

    assert_eq!(4, joined);
    assert_eq!(6 - joined, union_find.components);
}

#[test]
fn connected_is_an_equivalence() {
    let mut union_find = UnionFind::from(5);
    union_find.unify(0, 1);
    union_find.unify(2, 1);

    assert!(union_find.connected(3, 3));
    assert!(union_find.connected(0, 2));
    assert!(union_find.connected(2, 0));
    assert!(union_find.connected(0, 1) && union_find.connected(1, 2));
    assert!(!union_find.connected(0, 3));
    assert!(!union_find.connected(3, 0));
}

#[test]
fn smaller_set_goes_under_larger() {
    let mut union_find = UnionFind::from(4);
    union_find.unify(0, 1);
    union_find.unify(2, 0);

    assert_eq!(0, union_find.parent(2));
    assert_eq!(3, union_find.size(0));
}

#[test]
fn find_points_the_whole_path_at_the_root() {
    let mut union_find = UnionFind::from(4);
    union_find.unify(1, 0);
    union_find.unify(2, 3);
    union_find.unify(0, 2);
    let root = union_find.find(3);

    assert_eq!(root, union_find.parent(3));
    assert_eq!(root, union_find.parent(root));
    assert_eq!(root, union_find.find(root));
    assert_eq!(root, union_find.find(0));
}

#[test]
fn merged_size_is_the_sum() {
    let mut union_find = UnionFind::from(5);
    union_find.unify(0, 1);
    union_find.unify(2, 3);
    union_find.unify(4, 2);
    union_find.unify(0, 2);

    let root = union_find.find(0);
    assert_eq!(5, union_find.size(root));
    assert_eq!(1, union_find.components);
}
