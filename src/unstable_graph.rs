//! The index backend: vertices and edges in dense vectors, named by their
//! position. Removal swaps the last element into the freed position and
//! repairs every reference to the element that moved.
use vstd::prelude::*;
use std::marker::PhantomData;
use crate::dft::{find_cycle, is_traversal, traverse_from_first_edge};
use crate::kinds::{Acyclic, Cyclic, CycleError, Cyclicness, Directed, EdgeType, GraphError, Undirected};
use crate::model::{
    EdgeModel, GraphModel, VertexModel, endpoint_count, lemma_relabel_count, lemma_swap_removed_multiset,
    kept_edge, push_incident, relabel, swap_removed, touches,
};

verus! {

broadcast use vstd::seq_lib::group_to_multiset_ensures;

/// A vertex: its payload and the handles of its incident edges.
#[derive(Clone, Debug)]
pub struct Vertex<V> {
    pub weight: V,
    edge_indices: Vec<usize>,
}

/// An edge: its payload and its (source, destination) endpoints.
#[derive(Clone, Debug)]
pub struct Edge<E> {
    pub weight: E,
    source: usize,
    destination: usize,
}

impl<V> View for Vertex<V> {
    type V = VertexModel<V>;

    closed spec fn view(&self) -> VertexModel<V> {
        VertexModel { weight: self.weight, incident: self.edge_indices@ }
    }
}

impl<E> View for Edge<E> {
    type V = EdgeModel<E>;

    closed spec fn view(&self) -> EdgeModel<E> {
        EdgeModel { weight: self.weight, source: self.source, destination: self.destination }
    }
}

impl<V> Vertex<V> {
    /// Drops every registration of edge `index`.
    fn dissociate_edge(&mut self, index: usize)
        ensures
            final(self).weight == old(self).weight,
            forall|x: usize|
                #[trigger] final(self)@.incident.to_multiset().count(x) == if x == index {
                    0
                } else {
                    old(self)@.incident.to_multiset().count(x)
                },
    {
        let ghost s = self.edge_indices@;
        let mut kept: Vec<usize> = Vec::new();
        let mut i: usize = 0;
        while i < self.edge_indices.len()
            invariant
                self.edge_indices@ == s,
                i <= s.len(),
                forall|x: usize|
                    #[trigger] kept@.to_multiset().count(x) == if x == index {
                        0
                    } else {
                        s.subrange(0, i as int).to_multiset().count(x)
                    },
            decreases s.len() - i,
        {
            let e = self.edge_indices[i];
            proof {
                assert(s.subrange(0, i as int + 1) =~= s.subrange(0, i as int).push(e));
            }
            if e != index {
                kept.push(e);
            }
            i = i + 1;
        }
        proof {
            assert(s.subrange(0, s.len() as int) =~= s);
        }
        self.edge_indices = kept;
    }

    /// Re-registers every registration of edge `from` as one of edge `to`.
    fn rename_edge(&mut self, from: usize, to: usize)
        requires
            from != to,
        ensures
            final(self).weight == old(self).weight,
            forall|x: usize|
                #[trigger] final(self)@.incident.to_multiset().count(x) == if x == from {
                    0
                } else if x == to {
                    old(self)@.incident.to_multiset().count(to) + old(self)@.incident.to_multiset().count(from)
                } else {
                    old(self)@.incident.to_multiset().count(x)
                },
    {
        let ghost s = self.edge_indices@;
        let mut out: Vec<usize> = Vec::new();
        let mut i: usize = 0;
        while i < self.edge_indices.len()
            invariant
                self.edge_indices@ == s,
                i <= s.len(),
                from != to,
                forall|x: usize|
                    #[trigger] out@.to_multiset().count(x) == if x == from {
                        0
                    } else if x == to {
                        s.subrange(0, i as int).to_multiset().count(to) + s.subrange(0, i as int).to_multiset().count(from)
                    } else {
                        s.subrange(0, i as int).to_multiset().count(x)
                    },
            decreases s.len() - i,
        {
            let e = self.edge_indices[i];
            proof {
                assert(s.subrange(0, i as int + 1) =~= s.subrange(0, i as int).push(e));
            }
            if e == from {
                out.push(to);
            } else {
                out.push(e);
            }
            i = i + 1;
        }
        proof {
            assert(s.subrange(0, s.len() as int) =~= s);
        }
        self.edge_indices = out;
    }

    /// The handles of the edges incident to this vertex.
    pub fn edge_indices(&self) -> (r: &[usize])
        ensures
            r@ == self@.incident,
    {
        self.edge_indices.as_slice()
    }

    /// The payload of this vertex.
    pub fn weight(&self) -> (r: &V)
        ensures
            *r == self@.weight,
    {
        &self.weight
    }
}

impl<E> Edge<E> {
    /// The (source, destination) endpoints of this edge.
    pub fn vertex_indices(&self) -> (r: (usize, usize))
        ensures
            r == (self@.source, self@.destination),
    {
        (self.source, self.destination)
    }

    /// The payload of this edge.
    pub fn weight(&self) -> (r: &E)
        ensures
            *r == self@.weight,
    {
        &self.weight
    }
}

/// The graph facade: a graph on the index backend.
pub type Graph<V, E, D, C> = UnstableGraph<V, E, D, C>;

/// A graph on the index backend.
pub struct UnstableGraph<V, E, D: EdgeType, C: Cyclicness> {
    vertices: Vec<Vertex<V>>,
    edges: Vec<Edge<E>>,
    _directed: PhantomData<D>,
    _cyclic: PhantomData<C>,
}

impl<V, E, D: EdgeType, C: Cyclicness> View for UnstableGraph<V, E, D, C> {
    type V = GraphModel<V, E>;

    closed spec fn view(&self) -> GraphModel<V, E> {
        GraphModel {
            vertices: self.vertices@.map_values(|v: Vertex<V>| v@),
            edges: self.edges@.map_values(|e: Edge<E>| e@),
        }
    }
}

impl<V, E, D: EdgeType, C: Cyclicness> UnstableGraph<V, E, D, C> {
    proof fn lemma_view(&self)
        ensures
            self@.vertices.len() == self.vertices@.len(),
            self@.edges.len() == self.edges@.len(),
            self@.vertices.len() <= usize::MAX,
            self@.edges.len() <= usize::MAX,
            forall|i: int| 0 <= i < self.vertices@.len() ==> #[trigger] self@.vertices[i] == self.vertices@[i]@,
            forall|i: int| 0 <= i < self.edges@.len() ==> #[trigger] self@.edges[i] == self.edges@[i]@,
    {
        assert(self.vertices.len() == self.vertices@.len());
        assert(self.edges.len() == self.edges@.len());
    }

    fn empty(cap: usize) -> (r: Self)
        ensures
            r.inv(),
            r@.vertices.len() == 0,
            r@.edges.len() == 0,
    {
        Self::with_capacities(cap, cap)
    }

    /// The invariant of every graph value: well-formed, and without a cycle
    /// when the graph is acyclic.
    pub open spec fn inv(&self) -> bool {
        &&& self@.wf()
        &&& !C::admits_cycles() ==> !self@.has_cycle(D::directed())
    }

    /// Returns `true` if the graph holds a cycle, following edge directions
    /// in a directed graph and never taking an edge straight back in an
    /// undirected one. Costs one search over all vertices and edges.
    pub fn cycles(&self) -> (r: bool)
        requires
            self.inv(),
        ensures
            r == self@.has_cycle(D::directed()),
    {
        find_cycle(self, D::directedness())
    }

    /// Lists, depth first and each once, the vertices reachable from the
    /// source of the first edge, starting there; following edge directions
    /// in a directed graph. A graph without edges gives an empty list. The
    /// list is a snapshot: later changes to the graph do not affect it.
    pub fn traverse(&self) -> (r: Vec<usize>)
        requires
            self.inv(),
        ensures
            is_traversal(self@, D::directed(), r@),
    {
        traverse_from_first_edge(self, D::directedness())
    }

    /// Creates an empty graph.
    pub fn new() -> (r: Self)
        ensures
            r.inv(),
            r@.vertices.len() == 0,
            r@.edges.len() == 0,
    {
        Self::empty(0)
    }

    /// Creates an empty graph with room for `vertex_cap` vertices and
    /// `edge_cap` edges.
    pub fn with_capacities(vertex_cap: usize, edge_cap: usize) -> (r: Self)
        ensures
            r.inv(),
            r@.vertices.len() == 0,
            r@.edges.len() == 0,
    {
        let r = UnstableGraph {
            vertices: Vec::with_capacity(vertex_cap),
            edges: Vec::with_capacity(edge_cap),
            _directed: PhantomData,
            _cyclic: PhantomData,
        };
        assert(r@.vertices =~= Seq::<VertexModel<V>>::empty());
        assert(r@.edges =~= Seq::<EdgeModel<E>>::empty());
        assert(!r@.has_cycle(D::directed())) by {
            if r@.has_cycle(D::directed()) {
                let (vs, es) = choose|vs: Seq<usize>, es: Seq<usize>| r@.is_cycle(D::directed(), vs, es);
                assert(r@.leads(D::directed(), es[0], vs[0], vs[1]));
            }
        }
        r
    }

    /// Creates an empty graph with room for `cap` vertices and `cap` edges.
    pub fn with_capacity(cap: usize) -> (r: Self)
        ensures
            r.inv(),
            r@.vertices.len() == 0,
            r@.edges.len() == 0,
    {
        Self::empty(cap)
    }

    /// An acyclic graph never holds a cycle, whatever was done to it.
    pub proof fn lemma_acyclic_never_cycles(&self)
        requires
            self.inv(),
            !C::admits_cycles(),
        ensures
            !self@.has_cycle(D::directed()),
    {
    }

    /// Inserts an edge from `source` to `destination` and returns its index.
    /// An acyclic graph first commits the edge, then searches the result for
    /// a cycle, and on finding one removes the edge again and fails.
    pub fn insert_edge(&mut self, source: usize, destination: usize, weight: E) -> (r: Result<usize, GraphError>)
        requires
            old(self).inv(),
        ensures
            final(self).inv(),
            source >= old(self)@.vertices.len() || destination >= old(self)@.vertices.len() ==> r
                == Err::<usize, GraphError>(GraphError::InvalidHandle) && final(self)@ == old(self)@,
            source < old(self)@.vertices.len() && destination < old(self)@.vertices.len() ==> if !C::admits_cycles()
                && old(self)@.with_edge(source, destination, weight).has_cycle(D::directed()) {
                r == Err::<usize, GraphError>(GraphError::Cycle(CycleError)) && final(self)@ == old(self)@
            } else {
                r == Ok::<usize, GraphError>(old(self)@.edges.len() as usize) && final(self)@ == old(self)@.with_edge(
                    source,
                    destination,
                    weight,
                )
            },
    {
        if source >= self.vertices.len() || destination >= self.vertices.len() {
            return Err(GraphError::InvalidHandle);
        }
        let ghost g0 = self@;
        let ghost w0 = weight;
        let index = self.insert_edge_unchecked(source, destination, weight);
        if !C::is_cyclic() {
            if find_cycle(self, D::directedness()) {
                self.undo_last_edge(source, destination, Ghost(g0), Ghost(w0));
                return Err(GraphError::Cycle(CycleError));
            }
        }
        Ok(index)
    }

    /// The number of vertices.
    pub fn vertex_count(&self) -> (r: usize)
        ensures
            r == self@.vertices.len(),
    {
        self.vertices.len()
    }

    /// The number of edges.
    pub fn edge_count(&self) -> (r: usize)
        ensures
            r == self@.edges.len(),
    {
        self.edges.len()
    }

    /// The handles of the edges incident to vertex `v`.
    pub fn incident_edges(&self, v: usize) -> (r: &[usize])
        requires
            v < self@.vertices.len(),
        ensures
            r@ == self@.vertices[v as int].incident,
    {
        proof {
            self.lemma_view();
        }
        self.vertices[v].edge_indices.as_slice()
    }

    /// The (source, destination) endpoints of edge `e`.
    pub fn endpoints(&self, e: usize) -> (r: (usize, usize))
        requires
            e < self@.edges.len(),
        ensures
            r == (self@.edges[e as int].source, self@.edges[e as int].destination),
    {
        proof {
            self.lemma_view();
        }
        (self.edges[e].source, self.edges[e].destination)
    }

    /// The vertex at `index`, if there is one.
    pub fn vertex(&self, index: usize) -> (r: Option<&Vertex<V>>)
        ensures
            index < self@.vertices.len() ==> r.is_some() && r.unwrap()@ == self@.vertices[index as int],
            index >= self@.vertices.len() ==> r.is_none(),
    {
        if index < self.vertices.len() {
            Some(&self.vertices[index])
        } else {
            None
        }
    }

    /// The edge at `index`, if there is one.
    pub fn edge(&self, index: usize) -> (r: Option<&Edge<E>>)
        ensures
            index < self@.edges.len() ==> r.is_some() && r.unwrap()@ == self@.edges[index as int],
            index >= self@.edges.len() ==> r.is_none(),
    {
        if index < self.edges.len() {
            Some(&self.edges[index])
        } else {
            None
        }
    }

    /// Appends an isolated vertex and returns its index.
    pub fn insert_vertex(&mut self, weight: V) -> (r: usize)
        requires
            old(self).inv(),
        ensures
            final(self).inv(),
            r == old(self)@.vertices.len(),
            final(self)@ == old(self)@.with_vertex(weight),
    {
        self.vertices.push(Vertex { weight, edge_indices: Vec::new() });
        let r = self.vertices.len() - 1;
        proof {
            let g = self@;
            let o = old(self)@;
            assert(g.vertices =~= o.with_vertex(weight).vertices);
            assert(g.edges =~= o.edges);
            assert forall|v: int, x: usize| 0 <= v < g.vertices.len() implies #[trigger] g.vertices[v].incident.to_multiset().count(x) == endpoint_count(g.edges, x, v as usize) by {
                if v < o.vertices.len() {
                    assert(g.vertices[v] == o.vertices[v]);
                } else {
                    assert(g.vertices[v].incident =~= Seq::<usize>::empty());
                    assert(Seq::<usize>::empty().to_multiset().len() == 0);
                    if endpoint_count(g.edges, x, v as usize) > 0 {
                        assert(g.edges[x as int].source < o.vertices.len());
                    }
                }
            }
            let h = |j: usize| j;
            let phi = |v: usize| v;
            assert forall|j: usize| j < g.edges.len() implies #[trigger] h(j) < o.edges.len() && o.edges[h(j) as int].source
                == phi(g.edges[j as int].source) && o.edges[h(j) as int].destination == phi(g.edges[j as int].destination) by {
            }
            if g.has_cycle(D::directed()) {
                assert forall|j1: usize, j2: usize|
                    j1 < g.edges.len() && j2 < g.edges.len() && j1 != j2 implies #[trigger] h(j1) != #[trigger] h(j2) by {
                }
                g.lemma_cycle_image(o, D::directed(), h, phi);
            }
        }
        r
    }

    /// Appends an edge and registers it with both endpoints, with no check
    /// for cycles. Returns its index.
    fn insert_edge_unchecked(&mut self, source: usize, destination: usize, weight: E) -> (r: usize)
        requires
            old(self)@.wf(),
            source < old(self)@.vertices.len(),
            destination < old(self)@.vertices.len(),
        ensures
            final(self)@.wf(),
            r == old(self)@.edges.len(),
            final(self)@ == old(self)@.with_edge(source, destination, weight),
    {
        let index = self.edges.len();
        self.vertices[source].edge_indices.push(index);
        self.vertices[destination].edge_indices.push(index);
        self.edges.push(Edge { weight, source, destination });
        proof {
            self.lemma_view();
            old(self).lemma_view();
            let g = self@;
            let o = old(self)@;
            let w = o.with_edge(source, destination, weight);
            assert(g.vertices =~= w.vertices);
            assert(g.edges =~= w.edges);
            assert forall|v: int, x: usize| 0 <= v < g.vertices.len() implies #[trigger] g.vertices[v].incident.to_multiset().count(x) == endpoint_count(g.edges, x, v as usize) by {
                assert(o.wf());
                assert(0 <= v < o.vertices.len());
                let e = index;
                let oi = o.vertices[v].incident;
                let gi = g.vertices[v].incident;
                o.lemma_incident_count(v, x);
                if v == source && v == destination {
                    assert(gi == oi.push(e).push(e));
                    assert(oi.push(e).push(e).to_multiset() == oi.push(e).to_multiset().insert(e));
                    assert(oi.push(e).to_multiset() == oi.to_multiset().insert(e));
                } else if v == source {
                    assert(gi == oi.push(e));
                    assert(oi.push(e).to_multiset() == oi.to_multiset().insert(e));
                } else if v == destination {
                    assert(gi == oi.push(e));
                    assert(oi.push(e).to_multiset() == oi.to_multiset().insert(e));
                } else {
                    assert(gi == oi);
                }
                if x < o.edges.len() {
                    assert(g.edges[x as int] == o.edges[x as int]);
                }
                let extra: nat = if x == e {
                    (if source == v { 1nat } else { 0nat }) + (if destination == v { 1nat } else { 0nat })
                } else {
                    0nat
                };
                assert(endpoint_count(g.edges, x, v as usize) == endpoint_count(o.edges, x, v as usize) + extra);
                assert(gi.to_multiset().count(x) == oi.to_multiset().count(x) + extra);
            }
        }
        index
    }

    /// Removes the edge that was appended last, restoring the graph exactly
    /// as it was before that insertion.
    fn undo_last_edge(&mut self, source: usize, destination: usize, Ghost(g): Ghost<GraphModel<V, E>>, Ghost(w): Ghost<E>)
        requires
            g.wf(),
            source < g.vertices.len(),
            destination < g.vertices.len(),
            old(self)@ == g.with_edge(source, destination, w),
        ensures
            final(self)@ == g,
    {
        proof {
            self.lemma_view();
            assert(self@.vertices[destination as int].incident.len() > 0);
        }
        self.vertices[destination].edge_indices.pop();
        proof {
            self.lemma_view();
            assert(self@.vertices.len() == g.vertices.len());
            assert(source != destination ==> self@.vertices[source as int] == old(self)@.vertices[source as int]);
            assert(self@.vertices[source as int].incident.len() > 0);
        }
        self.vertices[source].edge_indices.pop();
        self.edges.pop();
        proof {
            self.lemma_view();
            old(self).lemma_view();
            let o = old(self)@;
            assert(o.edges == g.edges.push(EdgeModel { weight: w, source, destination }));
            assert(self@.edges.len() == g.edges.len());
            assert forall|i: int| 0 <= i < g.edges.len() implies self@.edges[i] == g.edges[i] by {
                assert(self.edges@[i] == old(self).edges@[i]);
                assert(self@.edges[i] == self.edges@[i]@);
                assert(o.edges[i] == old(self).edges@[i]@);
                assert(o.edges[i] == g.edges[i]);
            }
            assert(self@.edges =~= g.edges);
            assert forall|v: int| 0 <= v < g.vertices.len() implies self@.vertices[v] == g.vertices[v] by {
                assert(self@.vertices[v] == self.vertices@[v]@);
                assert(o.vertices[v] == old(self).vertices@[v]@);
                if v == source || v == destination {
                    assert(self@.vertices[v].incident =~= g.vertices[v].incident);
                } else {
                    assert(self.vertices@[v] == old(self).vertices@[v]);
                }
            }
            assert(self@.vertices =~= g.vertices);
        }
    }
    /// Removes edge `index` by moving the last edge into its place, and
    /// repairs the registrations of both.
    #[verifier::rlimit(60)]
    pub(crate) fn remove_edge_at(&mut self, index: usize)
        requires
            old(self)@.wf(),
            index < old(self)@.edges.len(),
        ensures
            final(self)@.wf(),
            final(self)@.edges == swap_removed(old(self)@.edges, index as int),
            final(self)@.vertices.len() == old(self)@.vertices.len(),
            forall|v: int|
                0 <= v < old(self)@.vertices.len() ==> #[trigger] final(self)@.vertices[v].weight
                    == old(self)@.vertices[v].weight,
    {
        proof {
            self.lemma_view();
        }
        let ghost o = self@;
        let (s, d) = (self.edges[index].source, self.edges[index].destination);
        proof {
            assert(o.edges[index as int] == self.edges@[index as int]@);
            assert(s < o.vertices.len() && d < o.vertices.len());
        }
        self.vertices[s].dissociate_edge(index);
        if d != s {
            self.vertices[d].dissociate_edge(index);
        }
        let ghost mid = self.vertices@;
        let last = self.edges.len() - 1;
        if last != index {
            let (s2, d2) = (self.edges[last].source, self.edges[last].destination);
            proof {
                assert(o.edges[last as int] == self.edges@[last as int]@);
                assert(s2 < o.vertices.len() && d2 < o.vertices.len());
            }
            self.vertices[s2].rename_edge(last, index);
            if d2 != s2 {
                self.vertices[d2].rename_edge(last, index);
            }
        }
        self.edges.swap_remove(index);
        proof {
            self.lemma_view();
            let g = self@;
            assert(g.edges =~= swap_removed(o.edges, index as int)) by {
                assert forall|j: int| 0 <= j < g.edges.len() implies g.edges[j] == swap_removed(o.edges, index as int)[j] by {
                    assert(g.edges[j] == self.edges@[j]@);
                }
            }
            assert forall|v: int, x: usize| 0 <= v < g.vertices.len() implies #[trigger] g.vertices[v].incident.to_multiset().count(x) == endpoint_count(g.edges, x, v as usize) by {
                o.lemma_incident_count(v, x);
                o.lemma_incident_count(v, index);
                o.lemma_incident_count(v, last);
                assert(g.vertices[v] == self.vertices@[v]@);
                assert(o.vertices[v] == old(self).vertices@[v]@);
                if x < g.edges.len() && x != index {
                    assert(g.edges[x as int] == o.edges[x as int]);
                }
                if index < g.edges.len() {
                    assert(g.edges[index as int] == o.edges[last as int]);
                }
            }
            assert forall|v: int| 0 <= v < o.vertices.len() implies #[trigger] g.vertices[v].weight == o.vertices[v].weight by {
                assert(g.vertices[v] == self.vertices@[v]@);
                assert(o.vertices[v] == old(self).vertices@[v]@);
            }
        }
    }

    /// Removes edge `index`: the last edge moves into its place and takes
    /// over its handle, and both edges' registrations are repaired.
    pub fn remove_edge(&mut self, index: usize) -> (r: Result<(), GraphError>)
        requires
            old(self).inv(),
        ensures
            final(self).inv(),
            index >= old(self)@.edges.len() ==> r == Err::<(), GraphError>(GraphError::InvalidHandle)
                && final(self)@ == old(self)@,
            index < old(self)@.edges.len() ==> {
                &&& r == Ok::<(), GraphError>(())
                &&& final(self)@.edges == swap_removed(old(self)@.edges, index as int)
                &&& final(self)@.vertices.len() == old(self)@.vertices.len()
                &&& forall|v: int|
                    0 <= v < old(self)@.vertices.len() ==> #[trigger] final(self)@.vertices[v].weight
                        == old(self)@.vertices[v].weight
            },
    {
        if index >= self.edges.len() {
            return Err(GraphError::InvalidHandle);
        }
        let ghost o = self@;
        proof {
            self.lemma_view();
        }
        self.remove_edge_at(index);
        proof {
            if !C::admits_cycles() {
                lemma_removed_edge_keeps_acyclic(self@, o, D::directed(), index, (o.edges.len() - 1) as usize);
            }
        }
        Ok(())
    }

    /// Removes vertex `index`, which no edge names: the last vertex moves
    /// into its place, and the edges that named the last vertex are
    /// repaired to name `index`.
    pub(crate) fn remove_isolated_vertex(&mut self, index: usize)
        requires
            old(self).inv(),
            index < old(self)@.vertices.len(),
            old(self)@.vertices[index as int].incident.len() == 0,
        ensures
            final(self).inv(),
            final(self)@.vertices.len() == old(self)@.vertices.len() - 1,
            forall|v: int|
                0 <= v < final(self)@.vertices.len() ==> #[trigger] final(self)@.vertices[v]
                    == swap_removed(old(self)@.vertices, index as int)[v],
            final(self)@.edges.len() == old(self)@.edges.len(),
            forall|j: int|
                0 <= j < old(self)@.edges.len() ==> #[trigger] final(self)@.edges[j] == relabel(
                    old(self)@.edges[j],
                    (old(self)@.vertices.len() - 1) as usize,
                    index,
                ),
            forall|j: int| 0 <= j < old(self)@.edges.len() ==> !touches(#[trigger] old(self)@.edges[j], index),
    {
        proof {
            self.lemma_view();
        }
        let last = self.vertices.len() - 1;
        let ghost cur = self@;
        let ghost vs0 = self.vertices@;
        proof {
            assert forall|j: int| 0 <= j < cur.edges.len() implies !touches(#[trigger] cur.edges[j], index) by {
                cur.lemma_incident_count(index as int, j as usize);
            }
        }
        if index != last {
            let n_inc = self.vertices[last].edge_indices.len();
            let ghost il = cur.vertices[last as int].incident;
            let mut k: usize = 0;
            while k < n_inc
                invariant
                    index < last,
                    last + 1 == cur.vertices.len(),
                    cur.wf(),
                    self.vertices@ == vs0,
                    self@.vertices == cur.vertices,
                    il == cur.vertices[last as int].incident,
                    n_inc == il.len(),
                    k <= n_inc,
                    self@.edges.len() == cur.edges.len(),
                    self.edges@.len() == cur.edges.len(),
                    forall|j: int| 0 <= j < cur.edges.len() ==> #[trigger] self@.edges[j] == cur.edges[j]
                        || self@.edges[j] == relabel(cur.edges[j], last, index),
                    forall|q: int| 0 <= q < k ==> #[trigger] self@.edges[il[q] as int] == relabel(cur.edges[il[q] as int], last, index),
                decreases n_inc - k,
            {
                proof {
                    self.lemma_view();
                }
                let e = self.vertices[last].edge_indices[k];
                proof {
                    assert(il[k as int] == e);
                    assert(il.contains(e));
                    cur.lemma_incident_count(last as int, e);
                    assert(self@.edges[e as int] == self.edges@[e as int]@);
                }
                let ghost prev = self@;
                let ghost prev_vec = self.edges@;
                if self.edges[e].source == last {
                    self.edges[e].source = index;
                }
                if self.edges[e].destination == last {
                    self.edges[e].destination = index;
                }
                proof {
                    self.lemma_view();
                    assert(self@.edges[e as int] == relabel(cur.edges[e as int], last, index));
                    assert forall|j: int| 0 <= j < cur.edges.len() && j != e implies #[trigger] self@.edges[j] == prev.edges[j] by {
                        assert(self.edges@[j] == prev_vec[j]);
                        assert(prev.edges[j] == prev_vec[j]@);
                    }
                    assert forall|q: int| 0 <= q < k + 1 implies #[trigger] self@.edges[il[q] as int] == relabel(cur.edges[il[q] as int], last, index) by {
                        if il[q] != e {
                            assert(prev.edges[il[q] as int] == relabel(cur.edges[il[q] as int], last, index));
                            cur.lemma_incident_count(last as int, il[q]);
                            assert(il.contains(il[q]));
                        }
                    }
                }
                k = k + 1;
            }
            proof {
                assert forall|j: int| 0 <= j < cur.edges.len() implies #[trigger] self@.edges[j] == relabel(cur.edges[j], last, index) by {
                    if touches(cur.edges[j], last) {
                        cur.lemma_incident_count(last as int, j as usize);
                        assert(il.contains(j as usize));
                        let q = choose|q: int| 0 <= q < il.len() && il[q] == j as usize;
                        assert(self@.edges[il[q] as int] == relabel(cur.edges[il[q] as int], last, index));
                    }
                }
            }
        }
        let ghost mid = self@;
        self.vertices.swap_remove(index);
        proof {
            self.lemma_view();
            let g = self@;
            assert forall|j: int| 0 <= j < cur.edges.len() implies #[trigger] g.edges[j] == relabel(cur.edges[j], last, index) by {
                assert(g.edges[j] == mid.edges[j]);
                assert(!touches(cur.edges[j], index));
            }
            assert(g.vertices.len() == cur.vertices.len() - 1);
            assert forall|v: int| 0 <= v < g.vertices.len() implies #[trigger] g.vertices[v] == swap_removed(cur.vertices, index as int)[v] by {
                assert(g.vertices[v] == self.vertices@[v]@);
            }
            // structure
            assert forall|e: int| #![trigger g.edges[e]] 0 <= e < g.edges.len() implies g.edges[e].source < g.vertices.len()
                && g.edges[e].destination < g.vertices.len() by {
                assert(!touches(cur.edges[e], index));
                assert(cur.edges[e].source < cur.vertices.len());
            }
            assert forall|v: int, x: usize| 0 <= v < g.vertices.len() implies #[trigger] g.vertices[v].incident.to_multiset().count(x)
                == endpoint_count(g.edges, x, v as usize) by {
                if v == index {
                    cur.lemma_incident_count(last as int, x);
                } else {
                    cur.lemma_incident_count(v, x);
                }
                if x < g.edges.len() {
                    assert(!touches(cur.edges[x as int], index));
                }
            }
            assert(g.wf());
            // no new cycle
            let h = |j: usize| j;
            let phi = |v: usize| if v == index { last } else { v };
            assert forall|j: usize| j < g.edges.len() implies #[trigger] h(j) < cur.edges.len() && cur.edges[h(j) as int].source
                == phi(g.edges[j as int].source) && cur.edges[h(j) as int].destination == phi(g.edges[j as int].destination) by {
                assert(!touches(cur.edges[j as int], index));
            }
            if !C::admits_cycles() && g.has_cycle(D::directed()) {
                assert forall|j1: usize, j2: usize|
                    j1 < g.edges.len() && j2 < g.edges.len() && j1 != j2 implies #[trigger] h(j1) != #[trigger] h(j2) by {
                }
                g.lemma_cycle_image(cur, D::directed(), h, phi);
            }
        }
    }

    /// Removes vertex `index` and every edge incident to it. Each edge goes
    /// as `remove_edge` removes it; then the last vertex moves into the freed
    /// position, and the edges that named it are repaired to name `index`.
    pub fn remove_vertex(&mut self, index: usize) -> (r: Result<(), GraphError>)
        requires
            old(self).inv(),
        ensures
            final(self).inv(),
            index >= old(self)@.vertices.len() ==> r == Err::<(), GraphError>(GraphError::InvalidHandle)
                && final(self)@ == old(self)@,
            index < old(self)@.vertices.len() ==> r == Ok::<(), GraphError>(()),
            index < old(self)@.vertices.len() ==> final(self)@.vertices.len() == old(self)@.vertices.len() - 1,
            index < old(self)@.vertices.len() ==> forall|v: int|
                0 <= v < final(self)@.vertices.len() ==> #[trigger] final(self)@.vertices[v].weight
                    == swap_removed(old(self)@.vertices, index as int)[v].weight,
            index < old(self)@.vertices.len() ==> forall|x: EdgeModel<E>|
                !touches(x, index) ==> #[trigger] final(self)@.edges.to_multiset().count(
                    relabel(x, (old(self)@.vertices.len() - 1) as usize, index),
                ) == old(self)@.edges.to_multiset().count(x),
            index < old(self)@.vertices.len() ==> forall|j: int|
                0 <= j < final(self)@.edges.len() ==> kept_edge(
                    old(self)@.edges,
                    index,
                    (old(self)@.vertices.len() - 1) as usize,
                    #[trigger] final(self)@.edges[j],
                ),
    {
        if index >= self.vertices.len() {
            return Err(GraphError::InvalidHandle);
        }
        let ghost o = self@;
        proof {
            self.lemma_view();
        }
        while self.vertices[index].edge_indices.len() > 0
            invariant
                self.inv(),
                index < self@.vertices.len(),
                self@.vertices.len() == o.vertices.len(),
                forall|v: int| 0 <= v < o.vertices.len() ==> #[trigger] self@.vertices[v].weight == o.vertices[v].weight,
                forall|x: EdgeModel<E>|
                    !touches(x, index) ==> #[trigger] self@.edges.to_multiset().count(x) == o.edges.to_multiset().count(x),
                forall|x: EdgeModel<E>| #[trigger] self@.edges.to_multiset().count(x) <= o.edges.to_multiset().count(x),
            decreases self@.edges.len(),
        {
            proof {
                self.lemma_view();
            }
            let e = self.vertices[index].edge_indices[0];
            let ghost before = self@;
            proof {
                assert(before.vertices[index as int].incident.contains(e));
                before.lemma_incident_count(index as int, e);
                assert(touches(before.edges[e as int], index));
                lemma_swap_removed_multiset(before.edges, e as int);
                self.lemma_view();
            }
            self.remove_edge_at(e);
            proof {
                self.lemma_view();
                if !C::admits_cycles() {
                    lemma_removed_edge_keeps_acyclic(self@, before, D::directed(), e, (before.edges.len() - 1) as usize);
                }
            }
        }
        proof {
            self.lemma_view();
        }
        let last = self.vertices.len() - 1;
        let ghost cur = self@;
        proof {
            assert forall|j: int| 0 <= j < cur.edges.len() implies !touches(#[trigger] cur.edges[j], index) by {
                cur.lemma_incident_count(index as int, j as usize);
            }
        }
        self.remove_isolated_vertex(index);
        proof {
            let g = self@;
            // the edges kept
            let last2 = (old(self)@.vertices.len() - 1) as usize;
            assert(last2 == last);
            assert forall|x: EdgeModel<E>| !touches(x, index) implies #[trigger] g.edges.to_multiset().count(
                relabel(x, last2, index)) == old(self)@.edges.to_multiset().count(x) by {
                if index != last {
                    lemma_relabel_count(cur.edges, g.edges, x, last, index);
                } else {
                    assert(g.edges =~= cur.edges);
                }
            }
            assert forall|j: int| 0 <= j < g.edges.len() implies kept_edge(old(self)@.edges, index, last2, #[trigger] g.edges[j]) by {
                let x = cur.edges[j];
                assert(cur.edges.contains(x));
                assert(cur.edges.to_multiset().count(x) > 0);
                assert(o.edges.to_multiset().count(x) > 0);
                assert(old(self)@.edges.contains(x));
                assert(g.edges[j] == relabel(x, last2, index));
            }
            assert forall|v: int| 0 <= v < g.vertices.len() implies #[trigger] g.vertices[v].weight
                == swap_removed(o.vertices, index as int)[v].weight by {
                assert(g.vertices[v] == swap_removed(cur.vertices, index as int)[v]);
            }
            assert(g.vertices.len() == o.vertices.len() - 1);
        }
        Ok(())
    }
}

/// Removing an edge creates no cycle.
proof fn lemma_removed_edge_keeps_acyclic<V, E>(g: GraphModel<V, E>, o: GraphModel<V, E>, dir: bool, index: usize, last: usize)
    requires
        index < o.edges.len(),
        last + 1 == o.edges.len(),
        g.edges == swap_removed(o.edges, index as int),
        !o.has_cycle(dir),
    ensures
        !g.has_cycle(dir),
{
    let h = |j: usize| if j == index { last } else { j };
    let phi = |v: usize| v;
    assert forall|j: usize| j < g.edges.len() implies #[trigger] h(j) < o.edges.len() && o.edges[h(j) as int].source
        == phi(g.edges[j as int].source) && o.edges[h(j) as int].destination == phi(g.edges[j as int].destination) by {
    }
    if g.has_cycle(dir) {
        assert forall|j1: usize, j2: usize|
            j1 < g.edges.len() && j2 < g.edges.len() && j1 != j2 implies #[trigger] h(j1) != #[trigger] h(j2) by {
        }
        g.lemma_cycle_image(o, dir, h, phi);
    }
}

impl<V, E> UnstableGraph<V, E, Directed, Cyclic> {
    /// Creates an empty directed graph that admits cycles.
    pub fn new_directed() -> (r: Self)
        ensures
            r.inv(),
            r@.vertices.len() == 0,
            r@.edges.len() == 0,
    {
        Self::empty(0)
    }

    /// Creates an empty directed graph that admits cycles, with room for `cap` vertices and `cap` edges.
    pub fn new_directed_with_capacity(cap: usize) -> (r: Self)
        ensures
            r.inv(),
            r@.vertices.len() == 0,
            r@.edges.len() == 0,
    {
        Self::empty(cap)
    }

    /// Creates an empty directed graph that admits cycles.
    pub fn directed() -> (r: Self)
        ensures
            r.inv(),
            r@.vertices.len() == 0,
            r@.edges.len() == 0,
    {
        Self::empty(0)
    }

    /// Creates an empty directed graph that admits cycles, with room for
    /// `cap` vertices and `cap` edges.
    pub fn directed_with_capacity(cap: usize) -> (r: Self)
        ensures
            r.inv(),
            r@.vertices.len() == 0,
            r@.edges.len() == 0,
    {
        Self::empty(cap)
    }
}

impl<V, E> UnstableGraph<V, E, Directed, Acyclic> {
    /// Creates an empty directed acyclic graph.
    pub fn new_directed() -> (r: Self)
        ensures
            r.inv(),
            r@.vertices.len() == 0,
            r@.edges.len() == 0,
    {
        Self::empty(0)
    }

    /// Creates an empty directed acyclic graph, with room for `cap` vertices and `cap` edges.
    pub fn new_directed_with_capacity(cap: usize) -> (r: Self)
        ensures
            r.inv(),
            r@.vertices.len() == 0,
            r@.edges.len() == 0,
    {
        Self::empty(cap)
    }

    /// Creates an empty directed acyclic graph.
    pub fn directed() -> (r: Self)
        ensures
            r.inv(),
            r@.vertices.len() == 0,
            r@.edges.len() == 0,
    {
        Self::empty(0)
    }

    /// Creates an empty directed acyclic graph, with room for `cap` vertices
    /// and `cap` edges.
    pub fn directed_with_capacity(cap: usize) -> (r: Self)
        ensures
            r.inv(),
            r@.vertices.len() == 0,
            r@.edges.len() == 0,
    {
        Self::empty(cap)
    }
}

impl<V, E> UnstableGraph<V, E, Undirected, Cyclic> {
    /// Creates an empty undirected graph that admits cycles.
    pub fn new_undirected() -> (r: Self)
        ensures
            r.inv(),
            r@.vertices.len() == 0,
            r@.edges.len() == 0,
    {
        Self::empty(0)
    }

    /// Creates an empty undirected graph that admits cycles, with room for `cap` vertices and `cap` edges.
    pub fn new_undirected_with_capacity(cap: usize) -> (r: Self)
        ensures
            r.inv(),
            r@.vertices.len() == 0,
            r@.edges.len() == 0,
    {
        Self::empty(cap)
    }

    /// Creates an empty undirected graph that admits cycles.
    pub fn undirected() -> (r: Self)
        ensures
            r.inv(),
            r@.vertices.len() == 0,
            r@.edges.len() == 0,
    {
        Self::empty(0)
    }

    /// Creates an empty undirected graph that admits cycles, with room for
    /// `cap` vertices and `cap` edges.
    pub fn undirected_with_capacity(cap: usize) -> (r: Self)
        ensures
            r.inv(),
            r@.vertices.len() == 0,
            r@.edges.len() == 0,
    {
        Self::empty(cap)
    }
}

} // verus!
