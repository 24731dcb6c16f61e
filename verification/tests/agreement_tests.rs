use disjoint_sets::quickfind::QuickFind;
use disjoint_sets::quickunion::QuickUnion;

fn check_agreement(n: usize, pairs: &[(usize, usize)]) {
    let mut qf = QuickFind::new(n);
    let mut qu = QuickUnion::new(n);
    for step in 0..=pairs.len() {
        for i in 0..n {
            for j in 0..n {
                assert_eq!(qf.connected(i, j), qu.connected(i, j));
            }
        }
        assert_eq!(qf.count_components(), qu.count_components());
        if step < pairs.len() {
            let (i, j) = pairs[step];
            qf.union(i, j);
            qu.union(i, j);
        }
    }
}

#[test]
fn both_structures_agree_on_the_demonstration_sequence() {
    check_agreement(10, &[(3, 4), (0, 1), (5, 6), (0, 6)]);
}

#[test]
fn both_structures_agree_with_repeated_and_self_unions() {
    check_agreement(
        9,
        &[(0, 0), (1, 2), (2, 1), (1, 2), (8, 7), (7, 6), (6, 8), (3, 3), (2, 6), (0, 8), (4, 5)],
    );
}

#[test]
fn both_structures_agree_on_a_generated_sequence() {
    let n: usize = 23;
    let mut pairs: Vec<(usize, usize)> = Vec::new();
    let mut state: usize = 12345;
    for _ in 0..30 {
        state = (state * 1103515245 + 12345) % 2147483648;
        let i = (state / 65536) % n;
        state = (state * 1103515245 + 12345) % 2147483648;
        let j = (state / 65536) % n;
        pairs.push((i, j));
    }
    check_agreement(n, &pairs);
}

#[test]
fn both_structures_hold_the_same_labels() {
    let mut qf = QuickFind::new(6);
    let mut qu = QuickUnion::new(6);
    for &(i, j) in [(0usize, 1usize), (2, 3), (1, 3), (5, 5), (4, 0)].iter() {
        qf.union(i, j);
        qu.union(i, j);
    }
    assert_eq!(qu.root(0), 3);
    assert_eq!(qu.root(4), 3);
    assert_eq!(qu.root(5), 5);
    for i in 0..6 {
        assert_eq!(qf.connected(i, 3), qu.root(i) == 3);
    }
}
