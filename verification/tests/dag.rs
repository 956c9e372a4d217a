use std::collections::HashSet;

use radicle_cobs::dag::{Dag, EdgeError};

#[test]
fn test_cycle() {
    let mut dag: Dag<u64, ()> = Dag::new();

    dag.node(0, ());
    dag.node(1, ());

    dag.dependency(&0, 1).unwrap();
    dag.dependency(&1, 0).unwrap();

    let sorted = dag.topological(fastrand::Rng::new());
    let expected: &[&[u64]] = &[&[0, 1], &[1, 0]];

    assert!(expected.contains(&sorted.as_slice()));
}

#[test]
fn test_diamond() {
    let mut dag: Dag<u64, ()> = Dag::new();

    dag.node(0, ());
    dag.node(1, ());
    dag.node(2, ());
    dag.node(3, ());

    dag.dependency(&1, 0).unwrap();
    dag.dependency(&2, 0).unwrap();
    dag.dependency(&3, 1).unwrap();
    dag.dependency(&3, 2).unwrap();

    assert_eq!(dag.tips(), vec![3]);
    assert_eq!(dag.roots(), vec![0]);

    // All of the possible sort orders for the above graph.
    let expected: &[&[u64]] = &[&[0, 1, 2, 3], &[0, 2, 1, 3]];
    let actual = dag.topological(fastrand::Rng::new());

    assert!(expected.contains(&actual.as_slice()), "{:?}", actual);
}

#[test]
fn test_complex() {
    let mut dag: Dag<u64, ()> = Dag::new();

    dag.node(0, ());
    dag.node(1, ());
    dag.node(2, ());
    dag.node(3, ());
    dag.node(4, ());
    dag.node(5, ());

    dag.dependency(&3, 2).unwrap();
    dag.dependency(&1, 3).unwrap();
    dag.dependency(&2, 5).unwrap();
    dag.dependency(&0, 5).unwrap();
    dag.dependency(&0, 4).unwrap();
    dag.dependency(&1, 4).unwrap();

    assert_eq!(
        dag.tips().into_iter().collect::<HashSet<_>>(),
        HashSet::from_iter([1, 0])
    );
    assert_eq!(
        dag.roots().into_iter().collect::<HashSet<_>>(),
        HashSet::from_iter([4, 5])
    );

    // All of the possible sort orders for the above graph.
    let expected = &[
        [4, 5, 0, 2, 3, 1],
        [4, 5, 2, 0, 3, 1],
        [4, 5, 2, 3, 0, 1],
        [4, 5, 2, 3, 1, 0],
        [5, 2, 3, 4, 0, 1],
        [5, 2, 3, 4, 1, 0],
        [5, 2, 4, 0, 3, 1],
        [5, 2, 4, 3, 0, 1],
        [5, 2, 4, 3, 1, 0],
        [5, 4, 0, 2, 3, 1],
        [5, 4, 2, 0, 3, 1],
        [5, 4, 2, 3, 0, 1],
        [5, 4, 2, 3, 1, 0],
    ];
    let rng = fastrand::Rng::new();
    let mut sorts = HashSet::new();

    while sorts.len() < expected.len() {
        sorts.insert(dag.topological(rng.clone()));
    }
    for e in expected {
        assert!(sorts.remove(e.to_vec().as_slice()));
    }
    assert!(sorts.is_empty());
}

#[test]
fn test_linearization_validity() {
    // Any seed yields an order placing every key after its dependencies.
    let mut dag: Dag<u64, ()> = Dag::new();
    for k in 0..8u64 {
        dag.node(k, ());
    }
    dag.dependency(&1, 0).unwrap();
    dag.dependency(&2, 0).unwrap();
    dag.dependency(&3, 1).unwrap();
    dag.dependency(&4, 1).unwrap();
    dag.dependency(&4, 2).unwrap();
    dag.dependency(&5, 4).unwrap();
    dag.dependency(&6, 5).unwrap();
    dag.dependency(&7, 3).unwrap();
    dag.dependency(&7, 6).unwrap();
    let deps: &[(u64, u64)] = &[
        (1, 0),
        (2, 0),
        (3, 1),
        (4, 1),
        (4, 2),
        (5, 4),
        (6, 5),
        (7, 3),
        (7, 6),
    ];
    for seed in 0..50u64 {
        let order = dag.topological(fastrand::Rng::with_seed(seed));
        assert_eq!(order.len(), 8);
        let pos = |k: u64| order.iter().position(|x| *x == k).unwrap();
        for (from, to) in deps {
            assert!(pos(*to) < pos(*from), "seed {seed}: {order:?}");
        }
    }
}

#[test]
fn test_node_replaces() {
    let mut dag: Dag<u64, u64> = Dag::new();
    assert!(dag.node(7, 1).is_none());
    let old = dag.node(7, 2);
    assert!(old.is_some());
    assert_eq!(*dag.get(&7).unwrap().value(), 2);
    assert!(dag.get(&8).is_none());
}

#[test]
fn test_dependency_unknown_source_errors() {
    let mut dag: Dag<u64, ()> = Dag::new();
    dag.node(0, ());
    // `from` is unknown: the edge is reported dropped and the graph and
    // its frontiers stand unchanged.
    assert_eq!(dag.dependency(&1, 0), Err(EdgeError::UnknownSource(1)));
    assert_eq!(dag.tips(), vec![0]);
    assert_eq!(dag.roots(), vec![0]);
}
