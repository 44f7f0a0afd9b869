//! The stable backend: handles are generation-tagged slot map keys that
//! survive the removal of other elements, while a handle to a removed
//! element is rejected rather than taken for another one.
//!
//! Vertices and edges live in a graph of the index backend; two key stores
//! map each live key to the element's current position there, and two
//! vectors map each position back to its key. When a removal moves an
//! element, its key is pointed at the new position.
use vstd::prelude::*;
use crate::kinds::{Acyclic, Cyclic, Cyclicness, Directed, EdgeType, GraphError, Undirected};
use crate::dft::is_traversal;
use crate::model::{GraphModel, swap_removed};
use crate::slots::{LIVE_BIT, KeySlots, slot_contents, slots_get, slots_insert, slots_remove, slots_set, slots_with_capacity};
use crate::unstable_graph::UnstableGraph;

verus! {

broadcast use {vstd::seq_lib::group_to_multiset_ensures, vstd::multiset::group_multiset_axioms};

/// A handle of the stable backend: a slot map key in its `u64` form.
#[derive(Clone, Copy, Debug, PartialEq, Eq, Hash, Structural)]
pub struct StableKey {
    pub bits: u64,
}

/// An edge as the contracts of the stable backend see it.
pub struct KeyedEdge<E> {
    pub weight: E,
    pub source: u64,
    pub destination: u64,
}

/// A stable graph as its contracts see it: the live keys with their
/// vertices and edges.
pub struct StableModel<V, E> {
    pub vertices: Map<u64, V>,
    pub edges: Map<u64, KeyedEdge<E>>,
}

/// Edge `e` names vertex key `k` as an endpoint.
pub open spec fn touches_key<E>(e: KeyedEdge<E>, k: u64) -> bool {
    e.source == k || e.destination == k
}

/// The edges of `edges` that do not name vertex key `k`.
pub open spec fn edges_without<E>(edges: Map<u64, KeyedEdge<E>>, k: u64) -> Map<u64, KeyedEdge<E>> {
    Map::new(|e: u64| edges.contains_key(e) && !touches_key(edges[e], k), |e: u64| edges[e])
}

/// Removing one vertex leaves the key of any other vertex valid, naming
/// the same payload.
pub proof fn lemma_other_key_survives<V, E>(before: StableModel<V, E>, after: StableModel<V, E>, removed: u64, kept: u64)
    requires
        before.vertices.contains_key(kept),
        kept != removed,
        after.vertices == before.vertices.remove(removed),
    ensures
        after.vertices.contains_key(kept),
        after.vertices[kept] == before.vertices[kept],
{
}

/// `m` and `ks` are inverse: `m` maps each live key to a position, `ks`
/// maps each position back to its key.
pub open spec fn keys_ok(m: Map<u64, usize>, ks: Seq<u64>) -> bool {
    &&& m.dom().finite()
    &&& m.len() == ks.len()
    &&& forall|k: u64| #[trigger] m.contains_key(k) ==> m[k] < ks.len() && ks[m[k] as int] == k && k | LIVE_BIT == k
    &&& forall|i: int| 0 <= i < ks.len() ==> m.contains_key(#[trigger] ks[i]) && m[ks[i]] == i
}

proof fn lemma_keys_push(m: Map<u64, usize>, ks: Seq<u64>, k: u64)
    requires
        keys_ok(m, ks),
        !m.contains_key(k),
        k | LIVE_BIT == k,
        ks.len() < usize::MAX,
    ensures
        keys_ok(m.insert(k, ks.len() as usize), ks.push(k)),
{
    let m2 = m.insert(k, ks.len() as usize);
    let ks2 = ks.push(k);
    assert(m2.dom() =~= m.dom().insert(k));
    assert forall|i: int| 0 <= i < ks2.len() implies m2.contains_key(#[trigger] ks2[i]) && m2[ks2[i]] == i by {
        if i < ks.len() {
            assert(ks2[i] == ks[i]);
            assert(m.contains_key(ks[i]));
        }
    }
}

proof fn lemma_keys_swap_remove(m: Map<u64, usize>, ks: Seq<u64>, i: int)
    requires
        keys_ok(m, ks),
        0 <= i < ks.len(),
    ensures
        keys_ok(
            if i == ks.len() - 1 {
                m.remove(ks[i])
            } else {
                m.remove(ks[i]).insert(ks.last(), i as usize)
            },
            swap_removed(ks, i),
        ),
{
    let last = ks.len() - 1;
    let m2 = if i == last {
        m.remove(ks[i])
    } else {
        m.remove(ks[i]).insert(ks.last(), i as usize)
    };
    let ks2 = swap_removed(ks, i);
    assert(m.contains_key(ks[i]));
    assert(m.contains_key(ks[last]));
    if i == last {
        assert(m2.dom() =~= m.dom().remove(ks[i]));
    } else {
        assert(ks[i] != ks[last]);
        assert(m2.dom() =~= m.dom().remove(ks[i]));
    }
    assert forall|k: u64| #[trigger] m2.contains_key(k) implies m2[k] < ks2.len() && ks2[m2[k] as int] == k && k | LIVE_BIT == k by {
        assert(m.contains_key(k));
        if k == ks[last] && i != last {
        } else {
            assert(m[k] != i);
            assert(m[k] != last) by {
                if m[k] == last {
                    assert(ks[last] == k);
                }
            }
        }
    }
    assert forall|j: int| 0 <= j < ks2.len() implies m2.contains_key(#[trigger] ks2[j]) && m2[ks2[j]] == j by {
        if j == i {
            assert(ks2[j] == ks[last]);
        } else {
            assert(ks2[j] == ks[j]);
            assert(m[ks[j]] == j);
            assert(ks[j] != ks[i]);
            assert(ks[j] != ks[last]);
        }
    }
}

/// A graph on the stable backend.
pub struct StableGraph<V, E, D: EdgeType, C: Cyclicness> {
    graph: UnstableGraph<V, E, D, C>,
    vertex_slots: KeySlots,
    vertex_keys: Vec<u64>,
    edge_slots: KeySlots,
    edge_keys: Vec<u64>,
}

impl<V, E, D: EdgeType, C: Cyclicness> View for StableGraph<V, E, D, C> {
    type V = StableModel<V, E>;

    closed spec fn view(&self) -> StableModel<V, E> {
        let g = self.graph@;
        let vm = slot_contents(self.vertex_slots);
        let em = slot_contents(self.edge_slots);
        let vk = self.vertex_keys@;
        StableModel {
            vertices: Map::new(|k: u64| vm.contains_key(k), |k: u64| g.vertices[vm[k] as int].weight),
            edges: Map::new(
                |k: u64| em.contains_key(k),
                |k: u64|
                    KeyedEdge {
                        weight: g.edges[em[k] as int].weight,
                        source: vk[g.edges[em[k] as int].source as int],
                        destination: vk[g.edges[em[k] as int].destination as int],
                    },
            ),
        }
    }
}

impl<V, E, D: EdgeType, C: Cyclicness> StableGraph<V, E, D, C> {
    /// The graph in dense form: the positions at which its vertices and
    /// edges are held at present.
    pub closed spec fn dense(&self) -> GraphModel<V, E> {
        self.graph@
    }

    /// The present position of each live vertex key.
    pub closed spec fn vertex_index(&self) -> Map<u64, usize> {
        slot_contents(self.vertex_slots)
    }

    /// The present position of each live edge key.
    pub closed spec fn edge_index(&self) -> Map<u64, usize> {
        slot_contents(self.edge_slots)
    }

    /// The key of the edge at position `j` of the dense form.
    pub closed spec fn edge_key_at(&self, j: usize) -> u64 {
        self.edge_keys@[j as int]
    }

    /// The key of the vertex at position `i` of the dense form.
    pub closed spec fn key_at(&self, i: usize) -> u64 {
        self.vertex_keys@[i as int]
    }

    /// The invariant: the dense graph is sound, the keys and positions
    /// correspond one to one, and an acyclic graph holds no cycle.
    pub closed spec fn wf(&self) -> bool {
        &&& self.graph.inv()
        &&& self.vertex_keys@.len() == self.graph@.vertices.len()
        &&& self.edge_keys@.len() == self.graph@.edges.len()
        &&& keys_ok(slot_contents(self.vertex_slots), self.vertex_keys@)
        &&& keys_ok(slot_contents(self.edge_slots), self.edge_keys@)
    }

    /// What the invariant gives callers: the dense form is the keyed graph
    /// with each key replaced by its position, and an acyclic graph holds
    /// no cycle.
    pub proof fn lemma_wf(&self)
        requires
            self.wf(),
        ensures
            !C::admits_cycles() ==> !self.dense().has_cycle(D::directed()),
            self@.vertices.len() == self.dense().vertices.len(),
            self@.edges.len() == self.dense().edges.len(),
            self@.vertices.dom().finite(),
            self@.edges.dom().finite(),
            forall|k: u64| #[trigger] self@.vertices.contains_key(k) ==> self.vertex_index().contains_key(k)
                && self.vertex_index()[k] < self.dense().vertices.len() && self.key_at(self.vertex_index()[k]) == k
                && self.dense().vertices[self.vertex_index()[k] as int].weight == self@.vertices[k],
            forall|i: usize|
                i < self.dense().vertices.len() ==> self@.vertices.contains_key(#[trigger] self.key_at(i))
                    && self.vertex_index()[self.key_at(i)] == i,
            forall|k: u64| #[trigger] self@.edges.contains_key(k) ==> {
                let ed = self.dense().edges[self.edge_index()[k] as int];
                &&& self.edge_index().contains_key(k)
                &&& self.edge_index()[k] < self.dense().edges.len()
                &&& ed.weight == self@.edges[k].weight
                &&& self.key_at(ed.source) == self@.edges[k].source
                &&& self.key_at(ed.destination) == self@.edges[k].destination
            },
            forall|j: usize|
                j < self.dense().edges.len() ==> self@.edges.contains_key(#[trigger] self.edge_key_at(j))
                    && self.edge_index()[self.edge_key_at(j)] == j,
    {
        assert(self@.vertices.dom() =~= slot_contents(self.vertex_slots).dom());
        assert(self@.edges.dom() =~= slot_contents(self.edge_slots).dom());
        assert forall|j: usize| j < self.dense().edges.len() implies self@.edges.contains_key(#[trigger] self.edge_key_at(j))
            && self.edge_index()[self.edge_key_at(j)] == j by {
            assert(slot_contents(self.edge_slots).contains_key(self.edge_keys@[j as int]));
        }
    }

    fn empty(cap: usize, graph: UnstableGraph<V, E, D, C>) -> (r: Self)
        requires
            cap < 0x0fff_ffff_ffff_ffff,
            graph.inv(),
            graph@.vertices.len() == 0,
            graph@.edges.len() == 0,
        ensures
            r.wf(),
            r@.vertices.dom() =~= Set::<u64>::empty(),
            r@.edges.dom() =~= Set::<u64>::empty(),
    {
        let r = StableGraph {
            graph,
            vertex_slots: slots_with_capacity(cap),
            vertex_keys: Vec::new(),
            edge_slots: slots_with_capacity(cap),
            edge_keys: Vec::new(),
        };
        proof {
            assert(slot_contents(r.vertex_slots).dom().len() == 0);
            assert(slot_contents(r.edge_slots).dom().len() == 0);
        }
        r
    }

    /// The number of vertices.
    pub fn vertex_count(&self) -> (r: usize)
        requires
            self.wf(),
        ensures
            r == self@.vertices.len(),
    {
        proof {
            self.lemma_wf();
        }
        self.graph.vertex_count()
    }

    /// The number of edges.
    pub fn edge_count(&self) -> (r: usize)
        requires
            self.wf(),
        ensures
            r == self@.edges.len(),
    {
        proof {
            self.lemma_wf();
        }
        self.graph.edge_count()
    }

    /// Returns `true` if the graph holds a cycle.
    pub fn cycles(&self) -> (r: bool)
        requires
            self.wf(),
        ensures
            r == self.dense().has_cycle(D::directed()),
    {
        self.graph.cycles()
    }

    /// The payload of the vertex that `key` names, if it is live.
    pub fn vertex(&self, key: StableKey) -> (r: Option<&V>)
        requires
            self.wf(),
        ensures
            self@.vertices.contains_key(key.bits) ==> r == Some(&self@.vertices[key.bits]),
            !self@.vertices.contains_key(key.bits) ==> r.is_none(),
    {
        if key.bits | LIVE_BIT != key.bits {
            return None;
        }
        match slots_get(&self.vertex_slots, key.bits) {
            Some(i) => {
                let v = self.graph.vertex(i);
                match v {
                    Some(v) => Some(v.weight()),
                    None => None,
                }
            },
            None => None,
        }
    }

    /// The payload of the edge that `key` names, if it is live.
    pub fn edge(&self, key: StableKey) -> (r: Option<&E>)
        requires
            self.wf(),
        ensures
            self@.edges.contains_key(key.bits) ==> r == Some(&self@.edges[key.bits].weight),
            !self@.edges.contains_key(key.bits) ==> r.is_none(),
    {
        if key.bits | LIVE_BIT != key.bits {
            return None;
        }
        match slots_get(&self.edge_slots, key.bits) {
            Some(i) => {
                match self.graph.edge(i) {
                    Some(e) => Some(e.weight()),
                    None => None,
                }
            },
            None => None,
        }
    }

    /// The keys of the source and destination of the edge that `key` names,
    /// if it is live.
    pub fn endpoints(&self, key: StableKey) -> (r: Option<(StableKey, StableKey)>)
        requires
            self.wf(),
        ensures
            self@.edges.contains_key(key.bits) ==> r == Some(
                (
                    StableKey { bits: self@.edges[key.bits].source },
                    StableKey { bits: self@.edges[key.bits].destination },
                ),
            ),
            !self@.edges.contains_key(key.bits) ==> r.is_none(),
    {
        if key.bits | LIVE_BIT != key.bits {
            return None;
        }
        match slots_get(&self.edge_slots, key.bits) {
            Some(i) => {
                let (s, d) = self.graph.endpoints(i);
                proof {
                    assert(s < self.graph@.vertices.len() && d < self.graph@.vertices.len());
                }
                Some((StableKey { bits: self.vertex_keys[s] }, StableKey { bits: self.vertex_keys[d] }))
            },
            None => None,
        }
    }

    /// The keys of the vertices that a depth-first traversal from the source
    /// of the first edge reaches, in the order of the traversal; see
    /// `UnstableGraph::traverse`.
    pub fn traverse(&self) -> (r: Vec<StableKey>)
        requires
            self.wf(),
        ensures
            exists|order: Seq<usize>|
                is_traversal(self.dense(), D::directed(), order) && r@.len() == order.len() && forall|i: int|
                    0 <= i < order.len() ==> #[trigger] r@[i].bits == self.key_at(order[i]),
            forall|i: int| 0 <= i < r@.len() ==> self@.vertices.contains_key(#[trigger] r@[i].bits),
    {
        let order = self.graph.traverse();
        let mut keys: Vec<StableKey> = Vec::new();
        let mut i: usize = 0;
        while i < order.len()
            invariant
                self.wf(),
                is_traversal(self.graph@, D::directed(), order@),
                i <= order@.len(),
                keys@.len() == i,
                forall|j: int| 0 <= j < i ==> #[trigger] keys@[j].bits == self.vertex_keys@[order@[j] as int],
            decreases order@.len() - i,
        {
            let v = order[i];
            keys.push(StableKey { bits: self.vertex_keys[v] });
            i = i + 1;
        }
        proof {
            assert forall|j: int| 0 <= j < keys@.len() implies self@.vertices.contains_key(#[trigger] keys@[j].bits) by {
                assert(order@[j] < self.graph@.vertices.len());
            }
            assert forall|j: int| 0 <= j < order@.len() implies #[trigger] keys@[j].bits == self.key_at(order@[j]) by {
            }
            assert(is_traversal(self.dense(), D::directed(), order@));
        }
        keys
    }

    /// Inserts an isolated vertex and returns its new key.
    pub fn insert_vertex(&mut self, weight: V) -> (r: StableKey)
        requires
            old(self).wf(),
            old(self)@.vertices.len() + 3 < u32::MAX,
        ensures
            final(self).wf(),
            !old(self)@.vertices.contains_key(r.bits),
            final(self)@.vertices == old(self)@.vertices.insert(r.bits, weight),
            final(self)@.edges == old(self)@.edges,
    {
        proof {
            self.lemma_wf();
        }
        let ghost o = *self;
        let i = self.graph.insert_vertex(weight);
        let k = slots_insert(&mut self.vertex_slots, i);
        self.vertex_keys.push(k);
        proof {
            lemma_keys_push(slot_contents(o.vertex_slots), o.vertex_keys@, k);
            assert(self.vertex_keys@ =~= o.vertex_keys@.push(k));
            let vm = slot_contents(self.vertex_slots);
            assert(self@.vertices =~= o@.vertices.insert(k, weight)) by {
                assert forall|k2: u64| #[trigger] vm.contains_key(k2) && k2 != k implies self.graph@.vertices[vm[k2] as int].weight
                    == o.graph@.vertices[slot_contents(o.vertex_slots)[k2] as int].weight by {
                    assert(slot_contents(o.vertex_slots).contains_key(k2));
                }
            }
            assert(self@.edges =~= o@.edges) by {
                let em = slot_contents(self.edge_slots);
                assert forall|k2: u64| #[trigger] em.contains_key(k2) implies self@.edges[k2] == o@.edges[k2] by {
                    let e = self.graph@.edges[em[k2] as int];
                    assert(e == o.graph@.edges[em[k2] as int]);
                    assert(e.source < o.graph@.vertices.len());
                    assert(e.destination < o.graph@.vertices.len());
                }
            }
        }
        StableKey { bits: k }
    }

    /// Inserts an edge from the vertex that `source` names to the one that
    /// `destination` names and returns its new key; an acyclic graph
    /// refuses an edge that would close a cycle, and stays as it was.
    pub fn insert_edge(&mut self, source: StableKey, destination: StableKey, weight: E) -> (r: Result<StableKey, GraphError>)
        requires
            old(self).wf(),
            old(self)@.edges.len() + 3 < u32::MAX,
        ensures
            final(self).wf(),
            !(old(self)@.vertices.contains_key(source.bits) && old(self)@.vertices.contains_key(destination.bits))
                ==> r == Err::<StableKey, GraphError>(GraphError::InvalidHandle) && final(self)@ == old(self)@,
            old(self)@.vertices.contains_key(source.bits) && old(self)@.vertices.contains_key(destination.bits)
                ==> if !C::admits_cycles() && old(self).dense().with_edge(
                old(self).vertex_index()[source.bits],
                old(self).vertex_index()[destination.bits],
                weight,
            ).has_cycle(D::directed()) {
                r == Err::<StableKey, GraphError>(GraphError::Cycle(crate::kinds::CycleError)) && final(self)@ == old(self)@
            } else {
                &&& r is Ok
                &&& !old(self)@.edges.contains_key(r->Ok_0.bits)
                &&& final(self)@.edges == old(self)@.edges.insert(
                    r->Ok_0.bits,
                    KeyedEdge { weight, source: source.bits, destination: destination.bits },
                )
                &&& final(self)@.vertices == old(self)@.vertices
            },
    {
        proof {
            self.lemma_wf();
        }
        if source.bits | LIVE_BIT != source.bits || destination.bits | LIVE_BIT != destination.bits {
            return Err(GraphError::InvalidHandle);
        }
        let si = match slots_get(&self.vertex_slots, source.bits) {
            Some(i) => i,
            None => {
                return Err(GraphError::InvalidHandle);
            },
        };
        let di = match slots_get(&self.vertex_slots, destination.bits) {
            Some(i) => i,
            None => {
                return Err(GraphError::InvalidHandle);
            },
        };
        let ghost o = *self;
        match self.graph.insert_edge(si, di, weight) {
            Ok(ei) => {
                let k = slots_insert(&mut self.edge_slots, ei);
                self.edge_keys.push(k);
                proof {
                    lemma_keys_push(slot_contents(o.edge_slots), o.edge_keys@, k);
                    assert(self.edge_keys@ =~= o.edge_keys@.push(k));
                    let vm = slot_contents(self.vertex_slots);
                    let em = slot_contents(self.edge_slots);
                    assert(self@.vertices =~= o@.vertices) by {
                        assert forall|k2: u64| #[trigger] vm.contains_key(k2) implies self.graph@.vertices[vm[k2] as int].weight
                            == o.graph@.vertices[vm[k2] as int].weight by {
                        }
                    }
                    assert(self@.edges =~= o@.edges.insert(k, KeyedEdge { weight, source: source.bits, destination: destination.bits })) by {
                        assert forall|k2: u64| #[trigger] em.contains_key(k2) && k2 != k implies self@.edges[k2] == o@.edges[k2] by {
                            assert(slot_contents(o.edge_slots).contains_key(k2));
                            assert(self.graph@.edges[em[k2] as int] == o.graph@.edges[em[k2] as int]);
                        }
                    }
                }
                Ok(StableKey { bits: k })
            },
            Err(e) => Err(e),
        }
    }

    /// Removes the edge at position `ei` and points the key of the edge that
    /// moves into its place there.
    fn remove_edge_at(&mut self, ei: usize)
        requires
            old(self).wf(),
            ei < old(self).dense().edges.len(),
        ensures
            final(self).wf(),
            final(self)@.vertices == old(self)@.vertices,
            final(self)@.edges == old(self)@.edges.remove(old(self).edge_keys@[ei as int]),
            final(self).dense().edges == swap_removed(old(self).dense().edges, ei as int),
            final(self).vertex_index() == old(self).vertex_index(),
            final(self).vertex_keys@ == old(self).vertex_keys@,
            final(self).dense().vertices.len() == old(self).dense().vertices.len(),
    {
        let ghost o = *self;
        let last = self.edge_keys.len() - 1;
        let k = self.edge_keys[ei];
        let _ = self.graph.remove_edge(ei);
        proof {
            assert(slot_contents(o.edge_slots).contains_key(k));
        }
        let _ = slots_remove(&mut self.edge_slots, k);
        if ei != last {
            let mk = self.edge_keys[last];
            proof {
                assert(slot_contents(o.edge_slots).contains_key(mk));
            }
            slots_set(&mut self.edge_slots, mk, ei);
        }
        self.edge_keys.swap_remove(ei);
        proof {
            lemma_keys_swap_remove(slot_contents(o.edge_slots), o.edge_keys@, ei as int);
            let vm = slot_contents(self.vertex_slots);
            let em = slot_contents(self.edge_slots);
            let oem = slot_contents(o.edge_slots);
            assert(self@.vertices =~= o@.vertices) by {
                assert forall|k2: u64| #[trigger] vm.contains_key(k2) implies self.graph@.vertices[vm[k2] as int].weight
                    == o.graph@.vertices[vm[k2] as int].weight by {
                }
            }
            assert(self@.edges =~= o@.edges.remove(k)) by {
                assert forall|k2: u64| #[trigger] em.contains_key(k2) implies self@.edges[k2] == o@.edges[k2] by {
                    assert(oem.contains_key(k2));
                    assert(self.graph@.edges[em[k2] as int] == o.graph@.edges[oem[k2] as int]);
                }
            }
        }
    }

    /// Removes the edge that `key` names, detaching it from both endpoints.
    pub fn remove_edge(&mut self, key: StableKey) -> (r: Result<(), GraphError>)
        requires
            old(self).wf(),
        ensures
            final(self).wf(),
            !old(self)@.edges.contains_key(key.bits) ==> r == Err::<(), GraphError>(GraphError::InvalidHandle)
                && final(self)@ == old(self)@,
            old(self)@.edges.contains_key(key.bits) ==> r == Ok::<(), GraphError>(()) && final(self)@.edges
                == old(self)@.edges.remove(key.bits) && final(self)@.vertices == old(self)@.vertices,
    {
        if key.bits | LIVE_BIT != key.bits {
            return Err(GraphError::InvalidHandle);
        }
        match slots_get(&self.edge_slots, key.bits) {
            Some(ei) => {
                self.remove_edge_at(ei);
                Ok(())
            },
            None => Err(GraphError::InvalidHandle),
        }
    }

    /// Removes the vertex that `key` names and every edge incident to it.
    /// Every other key stays valid and names what it named before.
    pub fn remove_vertex(&mut self, key: StableKey) -> (r: Result<(), GraphError>)
        requires
            old(self).wf(),
        ensures
            final(self).wf(),
            !old(self)@.vertices.contains_key(key.bits) ==> r == Err::<(), GraphError>(GraphError::InvalidHandle)
                && final(self)@ == old(self)@,
            old(self)@.vertices.contains_key(key.bits) ==> r == Ok::<(), GraphError>(()) && final(self)@.vertices
                == old(self)@.vertices.remove(key.bits) && final(self)@.edges == edges_without(old(self)@.edges, key.bits),
    {
        if key.bits | LIVE_BIT != key.bits {
            return Err(GraphError::InvalidHandle);
        }
        let vi = match slots_get(&self.vertex_slots, key.bits) {
            Some(i) => i,
            None => {
                return Err(GraphError::InvalidHandle);
            },
        };
        let ghost o = *self;
        proof {
            assert(vi < self.graph@.vertices.len());
        }
        while self.graph.incident_edges(vi).len() > 0
            invariant
                self.wf(),
                vi < self.graph@.vertices.len(),
                slot_contents(self.vertex_slots) == slot_contents(o.vertex_slots),
                slot_contents(o.vertex_slots).contains_key(key.bits),
                slot_contents(o.vertex_slots)[key.bits] == vi,
                self.vertex_keys@ == o.vertex_keys@,
                self.graph@.vertices.len() == o.graph@.vertices.len(),
                self@.vertices == o@.vertices,
                forall|e: u64| #[trigger] self@.edges.contains_key(e) ==> o@.edges.contains_key(e) && self@.edges[e] == o@.edges[e],
                forall|e: u64|
                    #[trigger] o@.edges.contains_key(e) && !touches_key(o@.edges[e], key.bits) ==> self@.edges.contains_key(e),
            decreases self.graph@.edges.len(),
        {
            let ei = self.graph.incident_edges(vi)[0];
            let ghost before = *self;
            proof {
                let g = self.graph@;
                assert(g.vertices[vi as int].incident[0] == ei);
                assert(g.vertices[vi as int].incident.contains(ei));
                g.lemma_incident_count(vi as int, ei);
                let ek = self.edge_keys@[ei as int];
                assert(slot_contents(self.edge_slots).contains_key(ek));
                assert(self@.edges[ek].source == self.vertex_keys@[g.edges[ei as int].source as int]);
                assert(self.vertex_keys@[vi as int] == key.bits);
                assert(touches_key(self@.edges[ek], key.bits));
            }
            self.remove_edge_at(ei);
            proof {
                let ek = before.edge_keys@[ei as int];
                assert forall|e: u64|
                    #[trigger] o@.edges.contains_key(e) && !touches_key(o@.edges[e], key.bits) implies self@.edges.contains_key(e) by {
                    assert(before@.edges.contains_key(e));
                    if e == ek {
                        assert(before@.edges[e] == o@.edges[e]);
                    }
                }
            }
        }
        let ghost mid = *self;
        proof {
            let g = self.graph@;
            let vk = self.vertex_keys@;
            assert(g.vertices[vi as int].incident.len() == 0);
            assert(g.vertices[vi as int].incident.to_multiset().len() == 0);
            assert forall|e: u64| #[trigger] self@.edges.contains_key(e) implies !touches_key(self@.edges[e], key.bits) by {
                let em = slot_contents(self.edge_slots);
                let j = em[e];
                g.lemma_incident_count(vi as int, j);
                let ed = g.edges[j as int];
                if vk[ed.source as int] == key.bits {
                    assert(slot_contents(self.vertex_slots)[vk[ed.source as int]] == ed.source);
                }
                if vk[ed.destination as int] == key.bits {
                    assert(slot_contents(self.vertex_slots)[vk[ed.destination as int]] == ed.destination);
                }
            }
            assert(self@.edges =~= edges_without(o@.edges, key.bits));
        }
        let lastv = self.vertex_keys.len() - 1;
        self.graph.remove_isolated_vertex(vi);
        let _ = slots_remove(&mut self.vertex_slots, key.bits);
        if vi != lastv {
            let mk = self.vertex_keys[lastv];
            proof {
                assert(slot_contents(mid.vertex_slots).contains_key(mk));
            }
            slots_set(&mut self.vertex_slots, mk, vi);
        }
        self.vertex_keys.swap_remove(vi);
        proof {
            lemma_keys_swap_remove(slot_contents(mid.vertex_slots), mid.vertex_keys@, vi as int);
            assert(mid.vertex_keys@[vi as int] == key.bits);
            let vm = slot_contents(self.vertex_slots);
            let mvm = slot_contents(mid.vertex_slots);
            let em = slot_contents(self.edge_slots);
            assert(self@.vertices =~= o@.vertices.remove(key.bits)) by {
                assert forall|k2: u64| #[trigger] vm.contains_key(k2) implies self.graph@.vertices[vm[k2] as int].weight
                    == mid.graph@.vertices[mvm[k2] as int].weight by {
                    assert(mvm.contains_key(k2));
                    assert(self.graph@.vertices[vm[k2] as int] == swap_removed(mid.graph@.vertices, vi as int)[vm[k2] as int]);
                }
            }
            assert(self@.edges =~= mid@.edges) by {
                assert forall|k2: u64| #[trigger] em.contains_key(k2) implies self@.edges[k2] == mid@.edges[k2] by {
                    let j = em[k2] as int;
                    let ed = mid.graph@.edges[j];
                    assert(self.graph@.edges[j] == crate::model::relabel(ed, lastv, vi));
                    assert(ed.source < mid.graph@.vertices.len());
                    assert(ed.destination < mid.graph@.vertices.len());
                }
            }
        }
        Ok(())
    }
}

impl<V, E> StableGraph<V, E, Directed, Cyclic> {
    /// Creates an empty directed graph that admits cycles.
    pub fn new_directed() -> (r: Self)
        ensures
            r.wf(),
            r@.vertices.dom() =~= Set::<u64>::empty(),
            r@.edges.dom() =~= Set::<u64>::empty(),
    {
        Self::empty(0, UnstableGraph::new())
    }

    /// Creates an empty directed graph that admits cycles, with room for
    /// `cap` vertices and `cap` edges.
    pub fn new_directed_with_capacity(cap: usize) -> (r: Self)
        requires
            cap < 0x0fff_ffff_ffff_ffff,
        ensures
            r.wf(),
            r@.vertices.dom() =~= Set::<u64>::empty(),
            r@.edges.dom() =~= Set::<u64>::empty(),
    {
        Self::empty(cap, UnstableGraph::with_capacity(cap))
    }
}

impl<V, E> StableGraph<V, E, Directed, Acyclic> {
    /// Creates an empty directed acyclic graph.
    pub fn new_directed() -> (r: Self)
        ensures
            r.wf(),
            r@.vertices.dom() =~= Set::<u64>::empty(),
            r@.edges.dom() =~= Set::<u64>::empty(),
    {
        Self::empty(0, UnstableGraph::new())
    }

    /// Creates an empty directed acyclic graph, with room for `cap` vertices
    /// and `cap` edges.
    pub fn new_directed_with_capacity(cap: usize) -> (r: Self)
        requires
            cap < 0x0fff_ffff_ffff_ffff,
        ensures
            r.wf(),
            r@.vertices.dom() =~= Set::<u64>::empty(),
            r@.edges.dom() =~= Set::<u64>::empty(),
    {
        Self::empty(cap, UnstableGraph::with_capacity(cap))
    }
}

impl<V, E> StableGraph<V, E, Undirected, Cyclic> {
    /// Creates an empty undirected graph that admits cycles.
    pub fn new_undirected() -> (r: Self)
        ensures
            r.wf(),
            r@.vertices.dom() =~= Set::<u64>::empty(),
            r@.edges.dom() =~= Set::<u64>::empty(),
    {
        Self::empty(0, UnstableGraph::new())
    }

    /// Creates an empty undirected graph that admits cycles, with room for
    /// `cap` vertices and `cap` edges.
    pub fn new_undirected_with_capacity(cap: usize) -> (r: Self)
        requires
            cap < 0x0fff_ffff_ffff_ffff,
        ensures
            r.wf(),
            r@.vertices.dom() =~= Set::<u64>::empty(),
            r@.edges.dom() =~= Set::<u64>::empty(),
    {
        Self::empty(cap, UnstableGraph::with_capacity(cap))
    }
}

} // verus!
