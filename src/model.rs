//! The mathematical model of a graph: vertices with their incident-edge
//! lists, edges with their ordered endpoints, and what walks and cycles are.
use vstd::prelude::*;

verus! {

/// A vertex as the contracts see it.
pub struct VertexModel<V> {
    pub weight: V,
    /// Handles of the incident edges; a self-loop is listed twice.
    pub incident: Seq<usize>,
}

/// An edge as the contracts see it.
pub struct EdgeModel<E> {
    pub weight: E,
    pub source: usize,
    pub destination: usize,
}

/// A graph as the contracts see it: vertex `i` and edge `i` are the ones
/// that the dense index `i` names.
pub struct GraphModel<V, E> {
    pub vertices: Seq<VertexModel<V>>,
    pub edges: Seq<EdgeModel<E>>,
}

/// How many times edge `e` names vertex `v` as an endpoint (0, 1 or 2).
pub open spec fn endpoint_count<E>(edges: Seq<EdgeModel<E>>, e: usize, v: usize) -> nat {
    if e < edges.len() {
        (if edges[e as int].source == v { 1nat } else { 0nat }) + (if edges[e as int].destination
            == v {
            1nat
        } else {
            0nat
        })
    } else {
        0
    }
}

/// The endpoint of edge `ed` that is not `v` (or `v` itself for a self-loop).
pub open spec fn other_end<E>(ed: EdgeModel<E>, v: usize) -> usize {
    if ed.source == v {
        ed.destination
    } else {
        ed.source
    }
}

/// `vs` with edge `e` appended to the incident list of vertex `v`.
pub open spec fn push_incident<V>(vs: Seq<VertexModel<V>>, v: usize, e: usize) -> Seq<
    VertexModel<V>,
> {
    vs.update(v as int, VertexModel { weight: vs[v as int].weight, incident: vs[v as int].incident.push(e) })
}

/// `s` with its element `i` replaced by its last element, then shortened by one:
/// what removal by swapping with the last element leaves.
pub open spec fn swap_removed<A>(s: Seq<A>, i: int) -> Seq<A> {
    s.update(i, s.last()).drop_last()
}

/// Edge `e` names `v` as an endpoint.
pub open spec fn touches<E>(e: EdgeModel<E>, v: usize) -> bool {
    e.source == v || e.destination == v
}

/// Edge `e` with every endpoint `from` replaced by `to`.
pub open spec fn relabel<E>(e: EdgeModel<E>, from: usize, to: usize) -> EdgeModel<E> {
    EdgeModel {
        weight: e.weight,
        source: if e.source == from { to } else { e.source },
        destination: if e.destination == from { to } else { e.destination },
    }
}

/// `y` is an edge of `edges` that does not touch `v`, relabeled from
/// `last` to `v`.
pub open spec fn kept_edge<E>(edges: Seq<EdgeModel<E>>, v: usize, last: usize, y: EdgeModel<E>) -> bool {
    exists|x: EdgeModel<E>| !touches(x, v) && edges.contains(x) && y == #[trigger] relabel(x, last, v)
}

/// Removal by swapping with the last element removes one occurrence of
/// the removed element and nothing else.
pub proof fn lemma_swap_removed_multiset<A>(s: Seq<A>, i: int)
    requires
        0 <= i < s.len(),
    ensures
        swap_removed(s, i).to_multiset() =~= s.to_multiset().remove(s[i]),
{
    broadcast use vstd::seq_lib::group_to_multiset_ensures;
    broadcast use vstd::seq_lib::to_multiset_update;
    broadcast use vstd::multiset::group_multiset_axioms;

    let t = s.last();
    let u = s.update(i, t);
    assert(u.to_multiset() == s.to_multiset().insert(t).remove(s[i]));
    assert(u =~= u.drop_last().push(t));
    assert(u.drop_last().push(t).to_multiset() =~= u.drop_last().to_multiset().insert(t));
    assert(u.drop_last().to_multiset() =~= u.to_multiset().remove(t));
}

/// Relabeling keeps apart the edges that do not touch the new label: if
/// `t` is `s` relabeled element by element, counts carry over.
pub proof fn lemma_relabel_count<E>(
    s: Seq<EdgeModel<E>>,
    t: Seq<EdgeModel<E>>,
    x: EdgeModel<E>,
    from: usize,
    to: usize,
)
    requires
        from != to,
        !touches(x, to),
        t.len() == s.len(),
        forall|j: int| 0 <= j < s.len() ==> !touches(#[trigger] s[j], to),
        forall|j: int| 0 <= j < s.len() ==> #[trigger] t[j] == relabel(s[j], from, to),
    ensures
        t.to_multiset().count(relabel(x, from, to)) == s.to_multiset().count(x),
    decreases s.len(),
{
    broadcast use vstd::seq_lib::group_to_multiset_ensures;
    broadcast use vstd::multiset::group_multiset_axioms;

    if s.len() == 0 {
        assert(t =~= Seq::<EdgeModel<E>>::empty());
        assert(s =~= Seq::<EdgeModel<E>>::empty());
    } else {
        let p = s.drop_last();
        let q = t.drop_last();
        assert forall|j: int| 0 <= j < p.len() implies #[trigger] q[j] == relabel(p[j], from, to) by {
            assert(q[j] == t[j] && p[j] == s[j]);
        }
        assert forall|j: int| 0 <= j < p.len() implies !touches(#[trigger] p[j], to) by {
            assert(p[j] == s[j]);
        }
        lemma_relabel_count(p, q, x, from, to);
        assert(s =~= p.push(s.last()));
        assert(t =~= q.push(t.last()));
        assert(t.last() == relabel(s.last(), from, to));
        assert(!touches(s.last(), to));
        assert(relabel(s.last(), from, to) == relabel(x, from, to) <==> s.last() == x);
    }
}

impl<V, E> GraphModel<V, E> {
    /// The structural invariant: every edge names live vertices, and each
    /// vertex lists exactly the live edges that name it, a self-loop twice.
    pub open spec fn wf(self) -> bool {
        &&& forall|e: int|
            #![trigger self.edges[e]]
            0 <= e < self.edges.len() ==> self.edges[e].source < self.vertices.len()
                && self.edges[e].destination < self.vertices.len()
        &&& forall|v: int, x: usize|
            #![trigger self.vertices[v].incident.to_multiset().count(x)]
            0 <= v < self.vertices.len() ==> self.vertices[v].incident.to_multiset().count(x)
                == endpoint_count(self.edges, x, v as usize)
    }

    /// One instance of the incidence clause of `wf`.
    pub proof fn lemma_incident_count(self, v: int, x: usize)
        requires
            self.wf(),
            0 <= v < self.vertices.len(),
        ensures
            self.vertices[v].incident.to_multiset().count(x) == endpoint_count(self.edges, x, v as usize),
    {
    }

    /// Following edge `e` leads from `a` to `b`: along its direction, or
    /// either way when edges are undirected.
    pub open spec fn leads(self, directed: bool, e: usize, a: usize, b: usize) -> bool {
        &&& e < self.edges.len()
        &&& {
            let ed = self.edges[e as int];
            (ed.source == a && ed.destination == b) || (!directed && ed.source == b
                && ed.destination == a)
        }
    }

    /// `vs` are the vertices and `es` the edges of a walk.
    pub open spec fn is_walk(self, directed: bool, vs: Seq<usize>, es: Seq<usize>) -> bool {
        &&& vs.len() == es.len() + 1
        &&& forall|j: int|
            0 <= j < es.len() ==> self.leads(directed, #[trigger] es[j], vs[j], vs[j + 1])
    }

    /// A closed walk of at least one edge. Without direction, it may not
    /// take an edge back the way it just came, around the end as well.
    pub open spec fn is_cycle(self, directed: bool, vs: Seq<usize>, es: Seq<usize>) -> bool {
        &&& self.is_walk(directed, vs, es)
        &&& es.len() >= 1
        &&& vs.last() == vs[0]
        &&& !directed ==> {
            &&& forall|j: int| 0 <= j < es.len() - 1 ==> #[trigger] es[j] != es[j + 1]
            &&& es.len() > 1 ==> es.last() != es[0]
        }
    }

    /// The graph holds a cycle.
    pub open spec fn has_cycle(self, directed: bool) -> bool {
        exists|vs: Seq<usize>, es: Seq<usize>| self.is_cycle(directed, vs, es)
    }

    /// Some walk leads from `a` to `b`.
    pub open spec fn reaches(self, directed: bool, a: usize, b: usize) -> bool {
        exists|vs: Seq<usize>, es: Seq<usize>|
            self.is_walk(directed, vs, es) && vs[0] == a && vs.last() == b
    }

    /// A graph whose edges map one to one onto edges of `old`, endpoints
    /// following a map of vertices, holds a cycle only if `old` does.
    pub proof fn lemma_cycle_image(
        self,
        old: Self,
        dir: bool,
        h: spec_fn(usize) -> usize,
        phi: spec_fn(usize) -> usize,
    )
        requires
            forall|j: usize|
                j < self.edges.len() ==> #[trigger] h(j) < old.edges.len() && old.edges[h(j) as int].source
                    == phi(self.edges[j as int].source) && old.edges[h(j) as int].destination == phi(
                    self.edges[j as int].destination,
                ),
            forall|j1: usize, j2: usize|
                j1 < self.edges.len() && j2 < self.edges.len() && j1 != j2 ==> #[trigger] h(j1) != #[trigger] h(j2),
            self.has_cycle(dir),
        ensures
            old.has_cycle(dir),
    {
        let (vs, es) = choose|vs: Seq<usize>, es: Seq<usize>| self.is_cycle(dir, vs, es);
        let vs2 = vs.map_values(|v: usize| phi(v));
        let es2 = es.map_values(|e: usize| h(e));
        assert forall|j: int| 0 <= j < es2.len() implies old.leads(dir, #[trigger] es2[j], vs2[j], vs2[j + 1]) by {
            assert(self.leads(dir, es[j], vs[j], vs[j + 1]));
            assert(h(es[j]) < old.edges.len());
        }
        if !dir {
            assert forall|j: int| 0 <= j < es2.len() - 1 implies #[trigger] es2[j] != es2[j + 1] by {
                assert(es[j] != es[j + 1]);
                assert(self.leads(dir, es[j], vs[j], vs[j + 1]));
                assert(self.leads(dir, es[j + 1], vs[j + 1], vs[j + 2]));
            }
            if es2.len() > 1 {
                assert(self.leads(dir, es[0], vs[0], vs[1]));
                assert(self.leads(dir, es.last(), vs[es.len() - 1], vs[es.len() as int]));
            }
        }
        assert(old.is_cycle(dir, vs2, es2));
    }

    /// The graph after appending an edge from `s` to `d`, registered with
    /// both endpoints.
    pub open spec fn with_edge(self, s: usize, d: usize, w: E) -> Self {
        let e = self.edges.len() as usize;
        GraphModel {
            vertices: push_incident(push_incident(self.vertices, s, e), d, e),
            edges: self.edges.push(EdgeModel { weight: w, source: s, destination: d }),
        }
    }

    /// After an edge is appended, both endpoints list it: once each, or
    /// twice for a self-loop.
    pub proof fn lemma_with_edge_registers(self, s: usize, d: usize, w: E)
        requires
            self.wf(),
            s < self.vertices.len(),
            d < self.vertices.len(),
            self.edges.len() < usize::MAX,
        ensures
            ({
                let g = self.with_edge(s, d, w);
                let e = self.edges.len() as usize;
                &&& g.vertices[s as int].incident.to_multiset().count(e) == if s == d { 2nat } else { 1nat }
                &&& g.vertices[d as int].incident.to_multiset().count(e) == if s == d { 2nat } else { 1nat }
            }),
    {
        broadcast use vstd::seq_lib::group_to_multiset_ensures;

        let g = self.with_edge(s, d, w);
        let e = self.edges.len() as usize;
        self.lemma_incident_count(s as int, e);
        self.lemma_incident_count(d as int, e);
        let si = self.vertices[s as int].incident;
        let di = self.vertices[d as int].incident;
        if s == d {
            assert(g.vertices[s as int].incident == si.push(e).push(e));
        } else {
            assert(g.vertices[s as int].incident == si.push(e));
            assert(g.vertices[d as int].incident == di.push(e));
        }
    }

    /// The graph after appending an isolated vertex.
    pub open spec fn with_vertex(self, w: V) -> Self {
        GraphModel {
            vertices: self.vertices.push(VertexModel { weight: w, incident: Seq::empty() }),
            edges: self.edges,
        }
    }
}

} // verus!
