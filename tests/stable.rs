use graffy::{Acyclic, Cyclic, CycleError, Directed, GraphError, StableGraph, StableKey, Undirected};

#[test]
fn stable_key_survives_other_removal() {
    let mut g = StableGraph::<usize, usize, Directed, Cyclic>::new_directed();
    let a = g.insert_vertex(10);
    let b = g.insert_vertex(20);
    let c = g.insert_vertex(30);
    g.insert_edge(a, b, 1).unwrap();
    let bc = g.insert_edge(b, c, 2).unwrap();
    g.remove_vertex(a).unwrap();
    assert_eq!(g.vertex(b), Some(&20));
    assert_eq!(g.vertex(c), Some(&30));
    assert_eq!(g.vertex(a), None);
    assert_eq!(g.edge_count(), 1);
    assert_eq!(g.remove_edge(bc), Ok(()));
    assert_eq!(g.edge_count(), 0);
}

#[test]
fn stable_removed_key_is_rejected_not_aliased() {
    let mut g = StableGraph::<usize, usize, Directed, Cyclic>::new_directed();
    let a = g.insert_vertex(10);
    g.remove_vertex(a).unwrap();
    let b = g.insert_vertex(20);
    assert_ne!(a, b);
    assert_eq!(g.vertex(a), None);
    assert_eq!(g.vertex(b), Some(&20));
    assert_eq!(g.remove_vertex(a), Err(GraphError::InvalidHandle));
    assert_eq!(g.insert_edge(a, b, 0), Err(GraphError::InvalidHandle));
    let e = g.insert_edge(b, b, 0).unwrap();
    assert_eq!(g.remove_edge(e), Ok(()));
    assert_eq!(g.remove_edge(e), Err(GraphError::InvalidHandle));
}

#[test]
fn stable_key_of_unknown_form_is_rejected() {
    let mut g = StableGraph::<usize, usize, Directed, Cyclic>::new_directed_with_capacity(4);
    let a = g.insert_vertex(10);
    let even = StableKey { bits: a.bits & !0x1_0000_0000 };
    assert_eq!(g.vertex(even), None);
    assert_eq!(g.remove_vertex(even), Err(GraphError::InvalidHandle));
    assert_eq!(g.vertex_count(), 1);
}

#[test]
fn stable_many_removals_keep_keys_right() {
    let mut g = StableGraph::<usize, usize, Undirected, Cyclic>::new_undirected();
    let keys: Vec<StableKey> = (0..8).map(|i| g.insert_vertex(i * 100)).collect();
    for i in 0..7 {
        g.insert_edge(keys[i], keys[i + 1], i).unwrap();
    }
    g.remove_vertex(keys[0]).unwrap();
    g.remove_vertex(keys[5]).unwrap();
    g.remove_vertex(keys[3]).unwrap();
    for (i, k) in keys.iter().enumerate() {
        if i == 0 || i == 3 || i == 5 {
            assert_eq!(g.vertex(*k), None);
        } else {
            assert_eq!(g.vertex(*k), Some(&(i * 100)));
        }
    }
    assert_eq!(g.vertex_count(), 5);
    assert_eq!(g.edge_count(), 2);
    assert!(!g.cycles());
}

#[test]
fn stable_acyclic_refuses_cycle() {
    let mut g = StableGraph::<usize, usize, Directed, Acyclic>::new_directed();
    let a = g.insert_vertex(1);
    let b = g.insert_vertex(2);
    g.insert_edge(a, b, 0).unwrap();
    assert_eq!(g.insert_edge(b, a, 0), Err(GraphError::Cycle(CycleError)));
    assert_eq!(g.edge_count(), 1);
    assert!(!g.cycles());
}

#[test]
fn stable_edge_lookup_and_traversal() {
    let mut g = StableGraph::<usize, usize, Directed, Acyclic>::new_directed_with_capacity(8);
    let a = g.insert_vertex(1);
    let b = g.insert_vertex(2);
    let c = g.insert_vertex(3);
    let ab = g.insert_edge(a, b, 12).unwrap();
    let bc = g.insert_edge(b, c, 23).unwrap();
    assert_eq!(g.edge(ab), Some(&12));
    assert_eq!(g.endpoints(bc), Some((b, c)));
    assert_eq!(g.traverse(), vec![a, b, c]);
    g.remove_edge(ab).unwrap();
    assert_eq!(g.edge(ab), None);
    assert_eq!(g.endpoints(ab), None);
    assert_eq!(g.edge(bc), Some(&23));
    assert_eq!(g.endpoints(bc), Some((b, c)));
    assert_eq!(g.traverse(), vec![b, c]);
    g.remove_vertex(a).unwrap();
    assert_eq!(g.endpoints(bc), Some((b, c)));
    assert_eq!(g.vertex(b), Some(&2));
}
