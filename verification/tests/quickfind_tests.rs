use disjoint_sets::quickfind::QuickFind;

#[test]
fn quick_find_fresh_elements_are_alone() {
    let qf = QuickFind::new(10);
    for i in 0..10 {
        for j in 0..10 {
            assert_eq!(qf.connected(i, j), i == j);
        }
    }
}

#[test]
fn quick_find_fresh_count_is_size() {
    for n in [0usize, 1, 2, 7, 10, 100] {
        assert_eq!(QuickFind::new(n).count_components(), n);
    }
}

#[test]
fn quick_find_empty_structure() {
    let qf = QuickFind::new(0);
    assert_eq!(qf.count_components(), 0);
}

#[test]
fn quick_find_single_element() {
    let mut qf = QuickFind::new(1);
    assert!(qf.connected(0, 0));
    qf.union(0, 0);
    assert!(qf.connected(0, 0));
    assert_eq!(qf.count_components(), 1);
}

#[test]
fn quick_find_demonstration_sequence() {
    let mut qf = QuickFind::new(10);
    assert!(!qf.connected(3, 4));

    qf.union(3, 4);
    assert!(qf.connected(3, 4));
    assert_eq!(qf.count_components(), 9);

    qf.union(0, 1);
    qf.union(5, 6);
    qf.union(0, 6);
    assert_eq!(qf.count_components(), 6);
    assert!(qf.connected(0, 5));
    assert!(qf.connected(0, 6));
    assert!(qf.connected(1, 6));
    assert!(!qf.connected(2, 7));
}

#[test]
fn quick_find_union_relabels_whole_class() {
    let mut qf = QuickFind::new(6);
    qf.union(0, 1);
    qf.union(2, 3);
    assert!(!qf.connected(0, 3));
    qf.union(1, 2);
    assert!(qf.connected(0, 2));
    assert!(qf.connected(0, 3));
    assert!(qf.connected(1, 3));
    assert!(!qf.connected(0, 4));
    assert!(!qf.connected(4, 5));
    assert_eq!(qf.count_components(), 3);
}

#[test]
fn quick_find_reflexive_after_unions() {
    let mut qf = QuickFind::new(8);
    for i in 0..8 {
        assert!(qf.connected(i, i));
    }
    qf.union(1, 2);
    qf.union(2, 7);
    qf.union(4, 4);
    for i in 0..8 {
        assert!(qf.connected(i, i));
    }
}

#[test]
fn quick_find_symmetric() {
    let mut qf = QuickFind::new(8);
    qf.union(1, 2);
    qf.union(6, 2);
    qf.union(3, 5);
    for i in 0..8 {
        for j in 0..8 {
            assert_eq!(qf.connected(i, j), qf.connected(j, i));
        }
    }
}

#[test]
fn quick_find_transitive() {
    let mut qf = QuickFind::new(8);
    qf.union(1, 2);
    qf.union(6, 2);
    qf.union(3, 5);
    qf.union(0, 5);
    for i in 0..8 {
        for j in 0..8 {
            for k in 0..8 {
                if qf.connected(i, j) && qf.connected(j, k) {
                    assert!(qf.connected(i, k));
                }
            }
        }
    }
}

#[test]
fn quick_find_count_drops_only_for_new_links() {
    let mut qf = QuickFind::new(6);
    let pairs = [(0usize, 1usize), (1, 0), (2, 3), (0, 3), (3, 1), (4, 4), (5, 4), (4, 0)];
    let expected = [5usize, 5, 4, 3, 3, 3, 2, 1];
    for (step, &(i, j)) in pairs.iter().enumerate() {
        let before = qf.count_components();
        let linked = qf.connected(i, j);
        qf.union(i, j);
        let after = qf.count_components();
        assert!(after <= before);
        assert_eq!(after < before, !linked);
        assert_eq!(after, expected[step]);
    }
}

#[test]
fn quick_find_union_twice_is_union_once() {
    let mut once = QuickFind::new(7);
    let mut twice = QuickFind::new(7);
    once.union(2, 5);
    once.union(5, 6);
    twice.union(2, 5);
    twice.union(2, 5);
    twice.union(5, 6);
    twice.union(5, 6);
    for i in 0..7 {
        for j in 0..7 {
            assert_eq!(once.connected(i, j), twice.connected(i, j));
        }
    }
    assert_eq!(once.count_components(), 5);
    assert_eq!(twice.count_components(), 5);
}

#[test]
fn quick_find_union_with_itself_changes_nothing() {
    let mut qf = QuickFind::new(4);
    qf.union(2, 2);
    assert_eq!(qf.count_components(), 4);
    for i in 0..4 {
        for j in 0..4 {
            assert_eq!(qf.connected(i, j), i == j);
        }
    }
}

#[test]
fn quick_find_everything_joined() {
    let mut qf = QuickFind::new(50);
    for i in 1..50 {
        qf.union(i - 1, i);
    }
    assert_eq!(qf.count_components(), 1);
    assert!(qf.connected(0, 49));
    assert!(qf.connected(49, 0));
}
