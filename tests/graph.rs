use graffy::{Acyclic, Cyclic, CycleError, Dft, Directed, Direction, Graph, GraphError, Undirected, UnstableGraph};

fn incident(g: &UnstableGraph<usize, usize, Directed, Cyclic>, v: usize) -> Vec<usize> {
    g.vertex(v).unwrap().edge_indices().to_vec()
}

#[test]
fn create_graph() {
    let mut graph = UnstableGraph::<usize, usize, Directed, Cyclic>::directed();

    let v1 = graph.insert_vertex(10);
    let v2 = graph.insert_vertex(20);
    let v3 = graph.insert_vertex(30);
    let v4 = graph.insert_vertex(40);

    graph.insert_edge(v1, v2, 25).unwrap();
    graph.insert_edge(v2, v3, 50).unwrap();
    graph.insert_edge(v3, v4, 75).unwrap();
    graph.insert_edge(v4, v3, 100).unwrap();

    let mut traverser = Dft::new(&graph);
    let mut index = 0;
    let mut seen = vec![];
    while let Some(vertex) = traverser.next() {
        eprintln_vertex(index, *graph.vertex(vertex).unwrap().weight());
        seen.push(vertex);
        index += 1;
    }
    assert_eq!(seen, vec![v1, v2, v3, v4]);
    assert!(traverser.cycles());
}

fn eprintln_vertex(index: usize, weight: usize) {
    println!("{index}: {weight}");
}

#[test]
fn tests_create_graph() {
    let mut graph = Graph::<usize, usize, Directed, Cyclic>::new_directed();

    let vertex2 = graph.insert_vertex(20);
    let vertex3 = graph.insert_vertex(30);
    let vertex1 = graph.insert_vertex(10);
    let vertex4 = graph.insert_vertex(40);

    graph.insert_edge(vertex2, vertex3, 25).unwrap();
    graph.insert_edge(vertex3, vertex1, 50).unwrap();
    graph.insert_edge(vertex1, vertex2, 75).unwrap();

    let order = graph.traverse();
    for (index, vertex) in order.iter().enumerate() {
        println!("{index}: {}", graph.vertex(*vertex).unwrap().weight());
    }
    assert_eq!(order, vec![vertex2, vertex3, vertex1]);
    assert!(!order.contains(&vertex4));
    assert!(graph.cycles());
}

#[test]
fn insert_edge_registers_both_endpoints() {
    let mut g = UnstableGraph::<usize, usize, Directed, Cyclic>::directed();
    let a = g.insert_vertex(1);
    let b = g.insert_vertex(2);
    let e = g.insert_edge(a, b, 7).unwrap();
    assert_eq!(incident(&g, a), vec![e]);
    assert_eq!(incident(&g, b), vec![e]);
    let l = g.insert_edge(a, a, 8).unwrap();
    assert_eq!(incident(&g, a), vec![e, l, l]);
    assert_eq!(g.edge(l).unwrap().vertex_indices(), (a, a));
    assert_eq!(*g.edge(e).unwrap().weight(), 7);
}

#[test]
fn acyclic_insert_rejected_leaves_graph_unchanged() {
    let mut g = UnstableGraph::<usize, usize, Directed, Acyclic>::directed();
    let a = g.insert_vertex(1);
    let b = g.insert_vertex(2);
    g.insert_edge(a, b, 1).unwrap();
    assert_eq!(g.insert_edge(b, a, 2), Err(GraphError::Cycle(CycleError)));
    assert_eq!(g.edge_count(), 1);
    assert_eq!(incident(&as_cyclic_view(&g), a), vec![0]);
    assert!(!g.cycles());
    assert_eq!(g.insert_edge(a, a, 3), Err(GraphError::Cycle(CycleError)));
    assert_eq!(g.edge_count(), 1);
}

fn as_cyclic_view(g: &UnstableGraph<usize, usize, Directed, Acyclic>) -> UnstableGraph<usize, usize, Directed, Cyclic> {
    let mut c = UnstableGraph::<usize, usize, Directed, Cyclic>::directed();
    for v in 0..g.vertex_count() {
        c.insert_vertex(*g.vertex(v).unwrap().weight());
    }
    for e in 0..g.edge_count() {
        let (s, d) = g.edge(e).unwrap().vertex_indices();
        c.insert_edge(s, d, *g.edge(e).unwrap().weight()).unwrap();
    }
    c
}

#[test]
fn cycles_false_on_new_and_after_operations_on_acyclic() {
    let mut g = UnstableGraph::<usize, usize, Directed, Acyclic>::directed();
    assert!(!g.cycles());
    let v: Vec<usize> = (0..5).map(|i| g.insert_vertex(i)).collect();
    for i in 0..5 {
        for j in 0..5 {
            let _ = g.insert_edge(v[i], v[j], i * 10 + j);
            assert!(!g.cycles());
        }
    }
    assert_eq!(g.edge_count(), 10);
    g.remove_vertex(v[2]).unwrap();
    assert!(!g.cycles());
    g.remove_edge(0).unwrap();
    assert!(!g.cycles());
}

#[test]
fn path_round_trip_on_directed_acyclic() {
    let n = 6;
    let mut g = UnstableGraph::<usize, usize, Directed, Acyclic>::directed();
    let v: Vec<usize> = (0..n).map(|i| g.insert_vertex(i)).collect();
    for i in 0..n - 1 {
        assert_eq!(g.insert_edge(v[i], v[i + 1], i), Ok(i));
    }
    assert_eq!(g.edge_count(), n - 1);
    assert_eq!(g.insert_edge(v[n - 1], v[0], 99), Err(GraphError::Cycle(CycleError)));
    assert_eq!(g.edge_count(), n - 1);
}

#[test]
fn closing_edge_on_directed_cyclic() {
    let n = 6;
    let mut g = UnstableGraph::<usize, usize, Directed, Cyclic>::directed();
    let v: Vec<usize> = (0..n).map(|i| g.insert_vertex(i)).collect();
    for i in 0..n - 1 {
        g.insert_edge(v[i], v[i + 1], i).unwrap();
    }
    assert!(!g.cycles());
    assert_eq!(g.insert_edge(v[n - 1], v[0], 99), Ok(n - 1));
    assert!(g.cycles());
}

#[test]
fn traverse_path_of_four() {
    let mut g = UnstableGraph::<usize, usize, Directed, Acyclic>::directed();
    let v1 = g.insert_vertex(1);
    let v2 = g.insert_vertex(2);
    let v3 = g.insert_vertex(3);
    let v4 = g.insert_vertex(4);
    g.insert_edge(v1, v2, 0).unwrap();
    g.insert_edge(v2, v3, 0).unwrap();
    g.insert_edge(v3, v4, 0).unwrap();
    assert_eq!(g.traverse(), vec![v1, v2, v3, v4]);
}

#[test]
fn traverse_without_edges_is_empty() {
    let mut g = UnstableGraph::<usize, usize, Directed, Cyclic>::directed();
    g.insert_vertex(1);
    g.insert_vertex(2);
    assert!(g.traverse().is_empty());
    let mut d = Dft::new(&g);
    assert_eq!(d.next(), None);
}

#[test]
fn traverse_undirected_goes_both_ways() {
    let mut g = UnstableGraph::<usize, usize, Undirected, Cyclic>::undirected();
    let a = g.insert_vertex(1);
    let b = g.insert_vertex(2);
    let c = g.insert_vertex(3);
    g.insert_edge(b, a, 0).unwrap();
    g.insert_edge(c, a, 0).unwrap();
    assert_eq!(g.traverse(), vec![b, a, c]);
}

#[test]
fn remove_vertex_removes_exactly_its_edges() {
    let mut g = UnstableGraph::<usize, usize, Directed, Cyclic>::directed();
    let a = g.insert_vertex(10);
    let b = g.insert_vertex(20);
    let c = g.insert_vertex(30);
    let d = g.insert_vertex(40);
    g.insert_edge(a, b, 1).unwrap();
    g.insert_edge(b, c, 2).unwrap();
    g.insert_edge(c, d, 3).unwrap();
    g.insert_edge(d, b, 4).unwrap();
    g.insert_edge(a, d, 5).unwrap();
    g.insert_edge(b, b, 6).unwrap();
    g.remove_vertex(b).unwrap();
    assert_eq!(g.vertex_count(), 3);
    assert_eq!(g.edge_count(), 2);
    let mut kept: Vec<usize> = (0..g.edge_count()).map(|e| *g.edge(e).unwrap().weight()).collect();
    kept.sort();
    assert_eq!(kept, vec![3, 5]);
    for v in 0..g.vertex_count() {
        for &e in g.vertex(v).unwrap().edge_indices() {
            assert!(e < g.edge_count());
            let (s, t) = g.edge(e).unwrap().vertex_indices();
            assert!(s == v || t == v);
        }
    }
}

#[test]
fn index_backend_relocates_last_vertex() {
    let mut g = UnstableGraph::<usize, usize, Directed, Cyclic>::directed();
    let a = g.insert_vertex(10);
    let b = g.insert_vertex(20);
    let c = g.insert_vertex(30);
    g.insert_edge(b, c, 7).unwrap();
    g.insert_edge(c, c, 8).unwrap();
    g.remove_vertex(a).unwrap();
    assert_eq!(*g.vertex(a).unwrap().weight(), 30);
    assert_eq!(*g.vertex(b).unwrap().weight(), 20);
    assert!(g.vertex(c).is_none());
    assert_eq!(g.edge(0).unwrap().vertex_indices(), (b, a));
    assert_eq!(g.edge(1).unwrap().vertex_indices(), (a, a));
    let mut inc = g.vertex(a).unwrap().edge_indices().to_vec();
    inc.sort();
    assert_eq!(inc, vec![0, 1, 1]);
}

#[test]
fn remove_edge_moves_last_edge_into_place() {
    let mut g = UnstableGraph::<usize, usize, Directed, Cyclic>::directed();
    let a = g.insert_vertex(1);
    let b = g.insert_vertex(2);
    let c = g.insert_vertex(3);
    g.insert_edge(a, b, 10).unwrap();
    g.insert_edge(b, c, 20).unwrap();
    g.insert_edge(c, a, 30).unwrap();
    g.remove_edge(0).unwrap();
    assert_eq!(g.edge_count(), 2);
    assert_eq!(*g.edge(0).unwrap().weight(), 30);
    assert_eq!(g.edge(0).unwrap().vertex_indices(), (c, a));
    assert_eq!(incident(&g, a), vec![0]);
    assert_eq!(incident(&g, b), vec![1]);
    let mut ic = incident(&g, c);
    ic.sort();
    assert_eq!(ic, vec![0, 1]);
}

#[test]
fn invalid_handles_are_rejected() {
    let mut g = UnstableGraph::<usize, usize, Directed, Cyclic>::directed();
    let a = g.insert_vertex(1);
    assert_eq!(g.insert_edge(a, 5, 0), Err(GraphError::InvalidHandle));
    assert_eq!(g.insert_edge(5, a, 0), Err(GraphError::InvalidHandle));
    assert_eq!(g.remove_edge(0), Err(GraphError::InvalidHandle));
    assert_eq!(g.remove_vertex(3), Err(GraphError::InvalidHandle));
    assert_eq!(g.edge_count(), 0);
    assert_eq!(g.vertex_count(), 1);
}

#[test]
fn directed_cycle_away_from_first_edge_is_found() {
    let mut g = UnstableGraph::<usize, usize, Directed, Cyclic>::directed();
    let a = g.insert_vertex(0);
    let b = g.insert_vertex(0);
    let c = g.insert_vertex(0);
    let d = g.insert_vertex(0);
    g.insert_edge(a, b, 0).unwrap();
    g.insert_edge(c, d, 0).unwrap();
    assert!(!g.cycles());
    g.insert_edge(d, c, 0).unwrap();
    assert!(g.cycles());
}

#[test]
fn directed_diamond_has_no_cycle() {
    let mut g = UnstableGraph::<usize, usize, Directed, Acyclic>::directed();
    let a = g.insert_vertex(0);
    let b = g.insert_vertex(0);
    let c = g.insert_vertex(0);
    let d = g.insert_vertex(0);
    g.insert_edge(a, b, 0).unwrap();
    g.insert_edge(a, c, 0).unwrap();
    g.insert_edge(b, d, 0).unwrap();
    assert_eq!(g.insert_edge(c, d, 0), Ok(3));
    assert!(!g.cycles());
}

#[test]
fn undirected_cycles() {
    let mut g = UnstableGraph::<usize, usize, Undirected, Cyclic>::undirected();
    let a = g.insert_vertex(0);
    let b = g.insert_vertex(0);
    let c = g.insert_vertex(0);
    g.insert_edge(a, b, 0).unwrap();
    assert!(!g.cycles());
    g.insert_edge(c, b, 0).unwrap();
    assert!(!g.cycles());
    g.insert_edge(c, a, 0).unwrap();
    assert!(g.cycles());

    let mut p = UnstableGraph::<usize, usize, Undirected, Cyclic>::new();
    let x = p.insert_vertex(0);
    let y = p.insert_vertex(0);
    p.insert_edge(x, y, 0).unwrap();
    p.insert_edge(y, x, 0).unwrap();
    assert!(p.cycles());

    let mut s = UnstableGraph::<usize, usize, Undirected, Cyclic>::with_capacity(4);
    let z = s.insert_vertex(0);
    s.insert_edge(z, z, 0).unwrap();
    assert!(s.cycles());
}

#[test]
fn undirected_acyclic_refuses_closing_edge() {
    let mut g = UnstableGraph::<usize, usize, Undirected, Acyclic>::new();
    let a = g.insert_vertex(0);
    let b = g.insert_vertex(0);
    let c = g.insert_vertex(0);
    assert_eq!(g.insert_edge(a, b, 0), Ok(0));
    assert_eq!(g.insert_edge(b, c, 0), Ok(1));
    assert_eq!(g.insert_edge(a, c, 0), Err(GraphError::Cycle(CycleError)));
    assert_eq!(g.insert_edge(b, a, 0), Err(GraphError::Cycle(CycleError)));
    assert_eq!(g.edge_count(), 2);
}

#[test]
fn direction_opposite() {
    assert_eq!(Direction::Outgoing.opposite(), Direction::Incoming);
    assert_eq!(Direction::Incoming.opposite(), Direction::Outgoing);
}

#[test]
fn constructors_start_empty() {
    let g = Graph::<u8, u8, Undirected, Cyclic>::new_undirected_with_capacity(8);
    assert_eq!(g.vertex_count(), 0);
    assert_eq!(g.edge_count(), 0);
    let h = Graph::<u8, u8, Directed, Acyclic>::new_directed_with_capacity(8);
    assert!(!h.cycles());
    let u = UnstableGraph::<u8, u8, Directed, Acyclic>::directed_with_capacity(3);
    assert_eq!(u.vertex_count(), 0);
}
