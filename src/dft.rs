//! Depth-first traversal and cycle detection.
//!
//! Cycle detection runs a depth-first search from every vertex not yet
//! reached, keeping each vertex unvisited, active (on the search stack) or
//! finished. A cycle exists exactly when some edge leads from the vertex on
//! top of the stack to an active vertex; without direction, the edge by
//! which that vertex was reached does not count.
use vstd::prelude::*;
use vstd::set_lib::{lemma_int_range, lemma_len_subset, set_int_range};
use crate::kinds::{Cyclicness, EdgeType};
use crate::model::{GraphModel, other_end};
use crate::unstable_graph::UnstableGraph;

verus! {

broadcast use vstd::seq_lib::group_to_multiset_ensures;

const UNVISITED: u8 = 0;

const ACTIVE: u8 = 1;

const FINISHED: u8 = 2;

/// Edge `f` may be followed away from `x`.
pub open spec fn out_edge<V, E>(m: GraphModel<V, E>, dir: bool, f: usize, x: usize) -> bool {
    &&& f < m.edges.len()
    &&& m.edges[f as int].source == x || (!dir && m.edges[f as int].destination == x)
}

/// Where following edge `f` away from `x` leads.
pub open spec fn target<V, E>(m: GraphModel<V, E>, f: usize, x: usize) -> usize {
    other_end(m.edges[f as int], x)
}

/// What holds of a finished vertex `x`: every edge away from it leads to a
/// vertex that finished earlier (with direction), or is a tree edge of the
/// search, with the later-finished endpoint as the parent (without).
spec fn finished_ok<V, E>(
    m: GraphModel<V, E>,
    dir: bool,
    st: Seq<u8>,
    fin: Seq<usize>,
    arr: Seq<usize>,
    hp: Seq<bool>,
    x: usize,
) -> bool {
    forall|f: usize|
        #[trigger] out_edge(m, dir, f, x) ==> {
            let t = target(m, f, x);
            if dir {
                st[t as int] == FINISHED && fin[t as int] < fin[x as int]
            } else {
                t != x && ((hp[x as int] && arr[x as int] == f && (st[t as int] == ACTIVE || (
                st[t as int] == FINISHED && fin[t as int] > fin[x as int]))) || (st[t as int]
                    == FINISHED && hp[t as int] && arr[t as int] == f && fin[t as int] < fin[x as int]))
            }
        }
}

/// What holds of an edge `f` that the search has dealt with at vertex `u`.
spec fn processed_ok<V, E>(
    m: GraphModel<V, E>,
    dir: bool,
    st: Seq<u8>,
    arr: Seq<usize>,
    hp: Seq<bool>,
    u: usize,
    f: usize,
) -> bool {
    out_edge(m, dir, f, u) ==> {
        let t = target(m, f, u);
        if dir {
            st[t as int] == FINISHED
        } else {
            t != u && ((hp[u as int] && arr[u as int] == f) || (st[t as int] == FINISHED
                && hp[t as int] && arr[t as int] == f))
        }
    }
}

/// The stack of the search is a path of active vertices, each reached
/// from the one below it by its arrival edge.
spec fn stack_ok<V, E>(
    m: GraphModel<V, E>,
    dir: bool,
    st: Seq<u8>,
    arr: Seq<usize>,
    hp: Seq<bool>,
    sv: Seq<usize>,
    sp: Seq<usize>,
) -> bool {
    &&& sv.len() == sp.len()
    &&& forall|k: int|
        0 <= k < sv.len() ==> #[trigger] sv[k] < m.vertices.len() && st[sv[k] as int] == ACTIVE
            && sp[k] <= m.vertices[sv[k] as int].incident.len()
    &&& forall|k1: int, k2: int| 0 <= k1 < k2 < sv.len() ==> sv[k1] != sv[k2]
    &&& forall|v: int| 0 <= v < m.vertices.len() && st[v] == ACTIVE ==> sv.contains(v as usize)
    &&& sv.len() > 0 ==> !hp[sv[0] as int]
    &&& forall|k: int|
        1 <= k < sv.len() ==> hp[#[trigger] sv[k] as int] && m.leads(
            dir,
            arr[sv[k] as int],
            sv[k - 1],
            sv[k],
        )
}

/// Every edge that a frame of the stack has dealt with is in order.
spec fn frames_ok<V, E>(
    m: GraphModel<V, E>,
    dir: bool,
    st: Seq<u8>,
    arr: Seq<usize>,
    hp: Seq<bool>,
    sv: Seq<usize>,
    sp: Seq<usize>,
) -> bool {
    forall|k: int, q: int|
        0 <= k < sv.len() && 0 <= q < sp[k] ==> processed_ok(
            m,
            dir,
            st,
            arr,
            hp,
            sv[k],
            #[trigger] m.vertices[sv[k] as int].incident[q],
        )
}

/// One edge followed twice in a row comes back to where it started.
proof fn lemma_leads_twice<V, E>(m: GraphModel<V, E>, dir: bool, e: usize, a: usize, b: usize, c: usize)
    requires
        m.leads(dir, e, a, b),
        m.leads(dir, e, b, c),
    ensures
        a == c,
{
}

/// An edge from the top of the stack to an active vertex closes a cycle.
proof fn lemma_back_edge<V, E>(
    m: GraphModel<V, E>,
    dir: bool,
    arr: Seq<usize>,
    hp: Seq<bool>,
    sv: Seq<usize>,
    k: int,
    f: usize,
)
    requires
        forall|k1: int, k2: int| 0 <= k1 < k2 < sv.len() ==> sv[k1] != sv[k2],
        forall|i: int|
            1 <= i < sv.len() ==> hp[#[trigger] sv[i] as int] && m.leads(
                dir,
                arr[sv[i] as int],
                sv[i - 1],
                sv[i],
            ),
        0 <= k < sv.len(),
        m.leads(dir, f, sv.last(), sv[k]),
        !dir && hp[sv.last() as int] ==> f != arr[sv.last() as int],
    ensures
        m.has_cycle(dir),
{
    let n = sv.len() - 1 - k;
    let vs = sv.subrange(k, sv.len() as int).push(sv[k]);
    let es = Seq::new(n as nat, |j: int| arr[sv[k + 1 + j] as int]).push(f);
    assert forall|j: int| 0 <= j < es.len() implies m.leads(dir, #[trigger] es[j], vs[j], vs[j + 1]) by {
        if j < n {
            assert(es[j] == arr[sv[k + 1 + j] as int]);
            assert(vs[j] == sv[k + j]);
            assert(vs[j + 1] == sv[k + j + 1]);
            assert(hp[sv[k + 1 + j] as int]);
        }
    }
    assert(m.is_walk(dir, vs, es));
    if !dir {
        assert forall|j: int| 0 <= j < es.len() - 1 implies #[trigger] es[j] != es[j + 1] by {
            let a = sv[k + j];
            let b = sv[k + j + 1];
            assert(hp[b as int]);
            assert(m.leads(dir, es[j], a, b));
            if j + 1 < n {
                let c = sv[k + j + 2];
                assert(hp[c as int]);
                assert(m.leads(dir, es[j + 1], b, c));
                if es[j] == es[j + 1] {
                    lemma_leads_twice(m, dir, es[j], a, b, c);
                    assert(sv[k + j] != sv[k + j + 2]);
                }
            } else {
                assert(b == sv.last());
            }
        }
        if es.len() > 1 {
            let a = sv[k];
            let b = sv[k + 1];
            assert(hp[b as int]);
            assert(m.leads(dir, es[0], a, b));
            if n > 1 {
                if es.last() == es[0] {
                    lemma_leads_twice(m, dir, f, sv.last(), a, b);
                    assert(sv[sv.len() - 1] != sv[k + 1]);
                }
            } else {
                assert(b == sv.last());
            }
        }
    }
    assert(m.is_cycle(dir, vs, es));
}

/// With direction: when every vertex is finished and each edge leads to a
/// vertex that finished earlier, no walk can return to where it started.
proof fn lemma_no_cycle_directed<V, E>(
    m: GraphModel<V, E>,
    st: Seq<u8>,
    fin: Seq<usize>,
    arr: Seq<usize>,
    hp: Seq<bool>,
)
    requires
        m.wf(),
        st.len() == m.vertices.len(),
        forall|x: usize| x < m.vertices.len() ==> finished_ok(m, true, st, fin, arr, hp, x),
    ensures
        !m.has_cycle(true),
{
    if m.has_cycle(true) {
        let (vs, es) = choose|vs: Seq<usize>, es: Seq<usize>| m.is_cycle(true, vs, es);
        assert forall|j: int| 1 <= j < vs.len() implies #[trigger] fin[vs[j] as int] < fin[vs[0] as int] by {
            lemma_walk_descends(m, st, fin, arr, hp, vs, es, j);
        }
        assert(fin[vs.last() as int] < fin[vs[0] as int]);
    }
}

proof fn lemma_walk_descends<V, E>(
    m: GraphModel<V, E>,
    st: Seq<u8>,
    fin: Seq<usize>,
    arr: Seq<usize>,
    hp: Seq<bool>,
    vs: Seq<usize>,
    es: Seq<usize>,
    j: int,
)
    requires
        m.wf(),
        forall|x: usize| x < m.vertices.len() ==> finished_ok(m, true, st, fin, arr, hp, x),
        m.is_walk(true, vs, es),
        1 <= j < vs.len(),
    ensures
        fin[vs[j] as int] < fin[vs[0] as int],
    decreases j,
{
    let f = es[j - 1];
    assert(m.leads(true, f, vs[j - 1], vs[j]));
    assert(out_edge(m, true, f, vs[j - 1]));
    assert(finished_ok(m, true, st, fin, arr, hp, vs[j - 1]));
    if j > 1 {
        lemma_walk_descends(m, st, fin, arr, hp, vs, es, j - 1);
    }
}

/// The position of a least element.
proof fn lemma_argmin(s: Seq<int>) -> (i: int)
    requires
        s.len() > 0,
    ensures
        0 <= i < s.len(),
        forall|j: int| 0 <= j < s.len() ==> s[i] <= #[trigger] s[j],
    decreases s.len(),
{
    if s.len() == 1 {
        0
    } else {
        let i0 = lemma_argmin(s.drop_last());
        if s[i0] <= s.last() {
            assert forall|j: int| 0 <= j < s.len() implies s[i0] <= #[trigger] s[j] by {
                if j < s.len() - 1 {
                    assert(s[j] == s.drop_last()[j]);
                }
            }
            i0
        } else {
            assert forall|j: int| 0 <= j < s.len() implies s[s.len() - 1] <= #[trigger] s[j] by {
                if j < s.len() - 1 {
                    assert(s[j] == s.drop_last()[j]);
                }
            }
            s.len() - 1
        }
    }
}

/// Without direction: when every vertex is finished and each edge is a tree
/// edge of the search, any closed walk turns back on itself at the vertex of
/// the walk that finished first.
proof fn lemma_no_cycle_undirected<V, E>(
    m: GraphModel<V, E>,
    st: Seq<u8>,
    fin: Seq<usize>,
    arr: Seq<usize>,
    hp: Seq<bool>,
)
    requires
        m.wf(),
        st.len() == m.vertices.len(),
        forall|x: usize| x < m.vertices.len() ==> finished_ok(m, false, st, fin, arr, hp, x),
    ensures
        !m.has_cycle(false),
{
    if m.has_cycle(false) {
        let (vs, es) = choose|vs: Seq<usize>, es: Seq<usize>| m.is_cycle(false, vs, es);
        let n = es.len() as int;
        assert forall|j: int| 0 <= j < vs.len() implies #[trigger] vs[j] < m.vertices.len() by {
            if j < n {
                assert(m.leads(false, es[j], vs[j], vs[j + 1]));
            } else {
                assert(m.leads(false, es[j - 1], vs[j - 1], vs[j]));
            }
        }
        let fs = Seq::new(n as nat, |j: int| fin[vs[j] as int] as int);
        let i = lemma_argmin(fs);
        let x = vs[i];
        let a = es[i];
        assert(m.leads(false, a, x, vs[i + 1]));
        assert(out_edge(m, false, a, x));
        assert(finished_ok(m, false, st, fin, arr, hp, x));
        assert(target(m, a, x) == vs[i + 1]);
        if i + 1 < n {
            assert(fs[i + 1] == fin[vs[i + 1] as int]);
        } else {
            assert(fs[0] == fin[vs[0] as int]);
        }
        assert(arr[x as int] == a);
        let ib = if i == 0 { n - 1 } else { i - 1 };
        let b = es[ib];
        let y = vs[ib];
        assert(m.leads(false, b, y, vs[ib + 1]));
        assert(vs[ib + 1] == x);
        assert(out_edge(m, false, b, x));
        assert(target(m, b, x) == y);
        assert(fs[ib] == fin[y as int]);
        assert(arr[x as int] == b);
        if n == 1 {
            assert(target(m, a, x) == x);
        }
    }
}

/// What holds of a finished vertex survives progress of the search.
proof fn lemma_finished_stable<V, E>(
    m: GraphModel<V, E>,
    dir: bool,
    st: Seq<u8>,
    fin: Seq<usize>,
    arr: Seq<usize>,
    hp: Seq<bool>,
    st2: Seq<u8>,
    fin2: Seq<usize>,
    arr2: Seq<usize>,
    hp2: Seq<bool>,
    x: usize,
)
    requires
        m.wf(),
        x < m.vertices.len(),
        st[x as int] == FINISHED,
        finished_ok(m, dir, st, fin, arr, hp, x),
        forall|v: int|
            0 <= v < m.vertices.len() && st[v] == FINISHED ==> st2[v] == FINISHED && fin2[v] == fin[v]
                && arr2[v] == arr[v] && hp2[v] == hp[v],
        forall|v: int|
            0 <= v < m.vertices.len() && st[v] == ACTIVE ==> st2[v] == ACTIVE || (st2[v] == FINISHED
                && fin2[v] > fin[x as int]),
    ensures
        finished_ok(m, dir, st2, fin2, arr2, hp2, x),
{
    assert forall|f: usize| #[trigger] out_edge(m, dir, f, x) implies {
        let t = target(m, f, x);
        if dir {
            st2[t as int] == FINISHED && fin2[t as int] < fin2[x as int]
        } else {
            t != x && ((hp2[x as int] && arr2[x as int] == f && (st2[t as int] == ACTIVE || (
            st2[t as int] == FINISHED && fin2[t as int] > fin2[x as int]))) || (st2[t as int]
                == FINISHED && hp2[t as int] && arr2[t as int] == f && fin2[t as int] < fin2[x as int]))
        }
    } by {
        assert(m.edges[f as int].source < m.vertices.len());
    }
}

/// A vertex whose incident edges have all been dealt with may finish.
proof fn lemma_finish<V, E>(
    m: GraphModel<V, E>,
    dir: bool,
    st: Seq<u8>,
    fin: Seq<usize>,
    arr: Seq<usize>,
    hp: Seq<bool>,
    sv: Seq<usize>,
    sp: Seq<usize>,
    clock: usize,
)
    requires
        m.wf(),
        st.len() == m.vertices.len(),
        fin.len() == m.vertices.len(),
        stack_ok(m, dir, st, arr, hp, sv, sp),
        frames_ok(m, dir, st, arr, hp, sv, sp),
        sv.len() > 0,
        sp.last() == m.vertices[sv.last() as int].incident.len(),
        forall|v: int| 0 <= v < m.vertices.len() && st[v] == FINISHED ==> fin[v] < clock,
    ensures
        finished_ok(
            m,
            dir,
            st.update(sv.last() as int, FINISHED),
            fin.update(sv.last() as int, clock),
            arr,
            hp,
            sv.last(),
        ),
{
    let u = sv.last();
    let top = sv.len() - 1;
    let st2 = st.update(u as int, FINISHED);
    let fin2 = fin.update(u as int, clock);
    let inc = m.vertices[u as int].incident;
    assert(sv[top] == u);
    assert forall|f: usize| #[trigger] out_edge(m, dir, f, u) implies {
        let t = target(m, f, u);
        if dir {
            st2[t as int] == FINISHED && fin2[t as int] < fin2[u as int]
        } else {
            t != u && ((hp[u as int] && arr[u as int] == f && (st2[t as int] == ACTIVE || (
            st2[t as int] == FINISHED && fin2[t as int] > fin2[u as int]))) || (st2[t as int]
                == FINISHED && hp[t as int] && arr[t as int] == f && fin2[t as int] < fin2[u as int]))
        }
    } by {
        m.lemma_incident_count(u as int, f);
        assert(inc.to_multiset().count(f) > 0);
        assert(inc.contains(f));
        let q = choose|q: int| 0 <= q < inc.len() && inc[q] == f;
        assert(processed_ok(m, dir, st, arr, hp, sv[top], m.vertices[sv[top] as int].incident[q]));
        let t = target(m, f, u);
        assert(m.edges[f as int].source < m.vertices.len());
        if !dir && hp[u as int] && arr[u as int] == f {
            if top == 0 {
                assert(!hp[sv[0] as int]);
            }
            assert(hp[sv[top] as int]);
            let pv = sv[top - 1];
            assert(m.leads(dir, arr[sv[top] as int], pv, u));
            assert(pv != u);
            assert(t == pv);
            assert(st[pv as int] == ACTIVE);
        }
    }
}

/// The state of the search between steps: every vertex is unvisited,
/// active or finished; finished vertices carry their certificate and
/// finished before the clock; the stack and its frames are in order.
#[verifier::opaque]
spec fn search_ok<V, E>(
    m: GraphModel<V, E>,
    dir: bool,
    st: Seq<u8>,
    fin: Seq<usize>,
    arr: Seq<usize>,
    hp: Seq<bool>,
    sv: Seq<usize>,
    sp: Seq<usize>,
    clock: nat,
) -> bool {
    &&& st.len() == m.vertices.len()
    &&& fin.len() == m.vertices.len()
    &&& arr.len() == m.vertices.len()
    &&& hp.len() == m.vertices.len()
    &&& forall|v: int| 0 <= v < m.vertices.len() ==> st[v] == UNVISITED || st[v] == ACTIVE || st[v] == FINISHED
    &&& forall|v: int| 0 <= v < m.vertices.len() && st[v] == FINISHED ==> fin[v] < clock
    &&& forall|x: usize|
        x < m.vertices.len() && st[x as int] == FINISHED ==> finished_ok(m, dir, st, fin, arr, hp, x)
    &&& stack_ok(m, dir, st, arr, hp, sv, sp)
    &&& frames_ok(m, dir, st, arr, hp, sv, sp)
}

/// What the search state says of the frame on top of the stack.
proof fn lemma_top<V, E>(
    m: GraphModel<V, E>,
    dir: bool,
    st: Seq<u8>,
    fin: Seq<usize>,
    arr: Seq<usize>,
    hp: Seq<bool>,
    sv: Seq<usize>,
    sp: Seq<usize>,
    clock: nat,
)
    requires
        search_ok(m, dir, st, fin, arr, hp, sv, sp, clock),
        sv.len() > 0,
    ensures
        sp.len() == sv.len(),
        sv.last() < m.vertices.len(),
        st[sv.last() as int] == ACTIVE,
        sp.last() <= m.vertices[sv.last() as int].incident.len(),
        st.len() == m.vertices.len(),
        fin.len() == m.vertices.len(),
        arr.len() == m.vertices.len(),
        hp.len() == m.vertices.len(),
{
    reveal(search_ok);
    assert(sv[sv.len() - 1] == sv.last());
}

/// The lengths and the range of states that the search state fixes.
proof fn lemma_shape<V, E>(
    m: GraphModel<V, E>,
    dir: bool,
    st: Seq<u8>,
    fin: Seq<usize>,
    arr: Seq<usize>,
    hp: Seq<bool>,
    sv: Seq<usize>,
    sp: Seq<usize>,
    clock: nat,
)
    requires
        search_ok(m, dir, st, fin, arr, hp, sv, sp, clock),
    ensures
        sp.len() == sv.len(),
        st.len() == m.vertices.len(),
        fin.len() == m.vertices.len(),
        arr.len() == m.vertices.len(),
        hp.len() == m.vertices.len(),
        forall|v: int| 0 <= v < m.vertices.len() ==> st[v] == UNVISITED || st[v] == ACTIVE || st[v] == FINISHED,
        sv.len() == 0 ==> forall|v: int| 0 <= v < m.vertices.len() ==> st[v] != ACTIVE,
{
    reveal(search_ok);
}

/// A search from an unvisited root starts with the root alone on the stack.
proof fn lemma_step_start<V, E>(
    m: GraphModel<V, E>,
    dir: bool,
    st: Seq<u8>,
    fin: Seq<usize>,
    arr: Seq<usize>,
    hp: Seq<bool>,
    clock: nat,
    root: usize,
)
    requires
        m.wf(),
        search_ok(m, dir, st, fin, arr, hp, Seq::empty(), Seq::empty(), clock),
        root < m.vertices.len(),
        st[root as int] == UNVISITED,
    ensures
        search_ok(
            m,
            dir,
            st.update(root as int, ACTIVE),
            fin,
            arr,
            hp.update(root as int, false),
            seq![root],
            seq![0usize],
            clock,
        ),
{
    reveal(search_ok);
    let st2 = st.update(root as int, ACTIVE);
    let hp2 = hp.update(root as int, false);
    assert forall|x: usize| x < m.vertices.len() && st2[x as int] == FINISHED implies finished_ok(m, dir, st2, fin, arr, hp2, x) by {
        lemma_finished_stable(m, dir, st, fin, arr, hp, st2, fin, arr, hp2, x);
    }
    assert(seq![root][0] == root);
    assert(seq![root].contains(root));
}

/// Moving past the edge at the top frame's position, once it is dealt with.
proof fn lemma_step_advance<V, E>(
    m: GraphModel<V, E>,
    dir: bool,
    st: Seq<u8>,
    fin: Seq<usize>,
    arr: Seq<usize>,
    hp: Seq<bool>,
    sv: Seq<usize>,
    sp: Seq<usize>,
    clock: nat,
    f: usize,
)
    requires
        m.wf(),
        search_ok(m, dir, st, fin, arr, hp, sv, sp, clock),
        sv.len() > 0,
        sp.last() < m.vertices[sv.last() as int].incident.len(),
        f == m.vertices[sv.last() as int].incident[sp.last() as int],
        !out_edge(m, dir, f, sv.last()) || (!dir && hp[sv.last() as int] && arr[sv.last() as int] == f)
            || st[target(m, f, sv.last()) as int] == FINISHED,
    ensures
        search_ok(m, dir, st, fin, arr, hp, sv, sp.update(sp.len() - 1, (sp.last() + 1) as usize), clock),
{
    reveal(search_ok);
    let top = sv.len() - 1;
    let u = sv.last();
    assert(sv[top] == u);
    let sp2 = sp.update(top, (sp.last() + 1) as usize);
    if out_edge(m, dir, f, u) {
        let t = target(m, f, u);
        assert(m.leads(dir, f, u, t));
        if !dir && hp[u as int] && arr[u as int] == f {
            if top > 0 {
                assert(hp[sv[top] as int]);
                assert(m.leads(dir, f, sv[top - 1], u));
                lemma_leads_twice(m, dir, f, sv[top - 1], u, t);
                assert(sv[top - 1] != sv[top]);
            } else {
                assert(!hp[sv[0] as int]);
            }
        } else if !dir {
            assert(m.edges[f as int].source < m.vertices.len());
            assert(out_edge(m, dir, f, t));
            assert(target(m, f, t) == u);
            assert(finished_ok(m, dir, st, fin, arr, hp, t));
        }
    }
    assert(processed_ok(m, dir, st, arr, hp, u, f));
    assert forall|k: int, q: int|
        0 <= k < sv.len() && 0 <= q < sp2[k] implies processed_ok(
            m,
            dir,
            st,
            arr,
            hp,
            sv[k],
            #[trigger] m.vertices[sv[k] as int].incident[q],
        ) by {
        if k == top && q == sp.last() {
        } else {
            assert(q < sp[k]);
        }
    }
}

/// An edge from the top frame to an unvisited vertex pushes that vertex.
proof fn lemma_step_push<V, E>(
    m: GraphModel<V, E>,
    dir: bool,
    st: Seq<u8>,
    fin: Seq<usize>,
    arr: Seq<usize>,
    hp: Seq<bool>,
    sv: Seq<usize>,
    sp: Seq<usize>,
    clock: nat,
    f: usize,
    t: usize,
)
    requires
        m.wf(),
        search_ok(m, dir, st, fin, arr, hp, sv, sp, clock),
        sv.len() > 0,
        m.leads(dir, f, sv.last(), t),
        t < m.vertices.len(),
        st[t as int] == UNVISITED,
    ensures
        search_ok(
            m,
            dir,
            st.update(t as int, ACTIVE),
            fin,
            arr.update(t as int, f),
            hp.update(t as int, true),
            sv.push(t),
            sp.push(0),
            clock,
        ),
{
    reveal(search_ok);
    let st2 = st.update(t as int, ACTIVE);
    let arr2 = arr.update(t as int, f);
    let hp2 = hp.update(t as int, true);
    let svn = sv.push(t);
    let spn = sp.push(0);
    let top = sv.len() - 1;
    assert(svn[top + 1] == t);
    assert(sv[top] == sv.last());
    assert forall|x: usize| x < m.vertices.len() && st2[x as int] == FINISHED implies finished_ok(m, dir, st2, fin, arr2, hp2, x) by {
        lemma_finished_stable(m, dir, st, fin, arr, hp, st2, fin, arr2, hp2, x);
    }
    assert forall|k: int| 0 <= k < sv.len() implies sv[k] != t by {
        assert(st[sv[k] as int] == ACTIVE);
    }
    assert forall|k: int| 0 <= k < svn.len() implies #[trigger] svn[k] < m.vertices.len() && st2[svn[k] as int] == ACTIVE
        && spn[k] <= m.vertices[svn[k] as int].incident.len() by {
        if k < sv.len() {
            assert(svn[k] == sv[k]);
        }
    }
    assert forall|k1: int, k2: int| 0 <= k1 < k2 < svn.len() implies svn[k1] != svn[k2] by {
        if k2 < sv.len() {
            assert(svn[k1] == sv[k1] && svn[k2] == sv[k2]);
        } else {
            assert(svn[k1] == sv[k1]);
        }
    }
    assert forall|k: int| 1 <= k < svn.len() implies hp2[#[trigger] svn[k] as int] && m.leads(
        dir, arr2[svn[k] as int], svn[k - 1], svn[k]) by {
        if k < sv.len() {
            assert(svn[k] == sv[k] && svn[k - 1] == sv[k - 1]);
            assert(svn[k] != t);
        } else {
            assert(svn[k - 1] == sv[top]);
        }
    }
    assert forall|v: int| 0 <= v < m.vertices.len() && st2[v] == ACTIVE implies svn.contains(v as usize) by {
        if v != t {
            assert(sv.contains(v as usize));
            let k = choose|k: int| 0 <= k < sv.len() && sv[k] == v as usize;
            assert(svn[k] == sv[k]);
        } else {
            assert(svn[top + 1] == v as usize);
        }
    }
    if svn.len() > 0 {
        assert(svn[0] == sv[0]);
        if sv[0] == t {
            assert(st[sv[0] as int] == ACTIVE);
        }
    }
    assert forall|k: int, q: int|
        0 <= k < svn.len() && 0 <= q < spn[k] implies processed_ok(
            m,
            dir,
            st2,
            arr2,
            hp2,
            svn[k],
            #[trigger] m.vertices[svn[k] as int].incident[q],
        ) by {
        assert(k < sv.len());
        assert(svn[k] == sv[k] && spn[k] == sp[k]);
        assert(sv[k] != t);
        let g = m.vertices[sv[k] as int].incident[q];
        assert(processed_ok(m, dir, st, arr, hp, sv[k], g));
        if out_edge(m, dir, g, sv[k]) {
            assert(m.edges[g as int].source < m.vertices.len());
        }
    }
}

/// A frame whose incident edges are all dealt with finishes.
proof fn lemma_step_finish<V, E>(
    m: GraphModel<V, E>,
    dir: bool,
    st: Seq<u8>,
    fin: Seq<usize>,
    arr: Seq<usize>,
    hp: Seq<bool>,
    sv: Seq<usize>,
    sp: Seq<usize>,
    clock: usize,
)
    requires
        m.wf(),
        search_ok(m, dir, st, fin, arr, hp, sv, sp, clock as nat),
        sv.len() > 0,
        sp.last() == m.vertices[sv.last() as int].incident.len(),
        clock < usize::MAX,
        m.vertices.len() <= usize::MAX,
    ensures
        search_ok(
            m,
            dir,
            st.update(sv.last() as int, FINISHED),
            fin.update(sv.last() as int, clock),
            arr,
            hp,
            sv.drop_last(),
            sp.drop_last(),
            (clock + 1) as nat,
        ),
{
    reveal(search_ok);
    let u = sv.last();
    let top = sv.len() - 1;
    assert(sv[top] == u);
    let st2 = st.update(u as int, FINISHED);
    let fin2 = fin.update(u as int, clock);
    let sv2 = sv.drop_last();
    let sp2 = sp.drop_last();
    lemma_finish(m, dir, st, fin, arr, hp, sv, sp, clock);
    assert forall|x: usize| x < m.vertices.len() && st2[x as int] == FINISHED implies finished_ok(m, dir, st2, fin2, arr, hp, x) by {
        if x != u {
            lemma_finished_stable(m, dir, st, fin, arr, hp, st2, fin2, arr, hp, x);
        }
    }
    assert forall|v: int| 0 <= v < m.vertices.len() && st2[v] == ACTIVE implies sv2.contains(v as usize) by {
        assert(v != u as int);
        assert(st[v] == ACTIVE);
        assert(sv.contains(v as usize));
        let k = choose|k: int| 0 <= k < sv.len() && sv[k] == v as usize;
        assert(v as usize != u);
        assert(sv[top] == u);
        assert(k != top);
        assert(sv2[k] == sv[k]);
    }
    assert forall|k: int| 0 <= k < sv2.len() implies #[trigger] sv2[k] < m.vertices.len() && st2[sv2[k] as int] == ACTIVE
        && sp2[k] <= m.vertices[sv2[k] as int].incident.len() by {
        assert(sv[k] == sv2[k]);
        assert(sv[k] != sv[top]);
    }
    assert forall|k1: int, k2: int| 0 <= k1 < k2 < sv2.len() implies sv2[k1] != sv2[k2] by {
        assert(sv2[k1] == sv[k1] && sv2[k2] == sv[k2]);
    }
    assert forall|k: int| 1 <= k < sv2.len() implies hp[#[trigger] sv2[k] as int] && m.leads(
        dir, arr[sv2[k] as int], sv2[k - 1], sv2[k]) by {
        assert(sv2[k] == sv[k] && sv2[k - 1] == sv[k - 1]);
    }
    if sv2.len() > 0 {
        assert(sv2[0] == sv[0]);
    }
    assert forall|k: int, q: int|
        0 <= k < sv2.len() && 0 <= q < sp2[k] implies processed_ok(
            m,
            dir,
            st2,
            arr,
            hp,
            sv2[k],
            #[trigger] m.vertices[sv2[k] as int].incident[q],
        ) by {
        assert(sv2[k] == sv[k] && sp2[k] == sp[k]);
        let g = m.vertices[sv[k] as int].incident[q];
        assert(processed_ok(m, dir, st, arr, hp, sv[k], g));
        assert(sv[k] != u);
        if out_edge(m, dir, g, sv[k]) {
            assert(m.edges[g as int].source < m.vertices.len());
        }
    }
}

/// An edge from the top frame to an active vertex, other than the one the
/// top vertex was reached by, closes a cycle.
proof fn lemma_step_back_edge<V, E>(
    m: GraphModel<V, E>,
    dir: bool,
    st: Seq<u8>,
    fin: Seq<usize>,
    arr: Seq<usize>,
    hp: Seq<bool>,
    sv: Seq<usize>,
    sp: Seq<usize>,
    clock: nat,
    f: usize,
    t: usize,
)
    requires
        search_ok(m, dir, st, fin, arr, hp, sv, sp, clock),
        sv.len() > 0,
        m.leads(dir, f, sv.last(), t),
        t < m.vertices.len(),
        st[t as int] == ACTIVE,
        !(!dir && hp[sv.last() as int] && arr[sv.last() as int] == f),
    ensures
        m.has_cycle(dir),
{
    reveal(search_ok);
    let k = choose|k: int| 0 <= k < sv.len() && sv[k] == t;
    lemma_back_edge(m, dir, arr, hp, sv, k, f);
}

/// When the stack is empty and every vertex finished, the certificate of
/// every vertex rules out a cycle.
proof fn lemma_search_done<V, E>(
    m: GraphModel<V, E>,
    dir: bool,
    st: Seq<u8>,
    fin: Seq<usize>,
    arr: Seq<usize>,
    hp: Seq<bool>,
    clock: nat,
)
    requires
        m.wf(),
        search_ok(m, dir, st, fin, arr, hp, Seq::empty(), Seq::empty(), clock),
        forall|v: int| 0 <= v < m.vertices.len() ==> st[v] == FINISHED,
    ensures
        !m.has_cycle(dir),
{
    reveal(search_ok);
    assert forall|x: usize| x < m.vertices.len() implies finished_ok(m, dir, st, fin, arr, hp, x) by {
        assert(st[x as int] == FINISHED);
    }
    if dir {
        lemma_no_cycle_directed(m, st, fin, arr, hp);
    } else {
        lemma_no_cycle_undirected(m, st, fin, arr, hp);
    }
}

/// Returns `true` exactly when the graph holds a cycle: with `dir`, a
/// closed walk along edge directions; without, a closed walk that never
/// takes an edge straight back.
pub fn find_cycle<V, E, D: EdgeType, C: Cyclicness>(g: &UnstableGraph<V, E, D, C>, dir: bool) -> (r: bool)
    requires
        g@.wf(),
    ensures
        r == g@.has_cycle(dir),
{
    let ghost m = g@;
    let nv = g.vertex_count();
    let mut st: Vec<u8> = Vec::new();
    let mut fin: Vec<usize> = Vec::new();
    let mut arr: Vec<usize> = Vec::new();
    let mut hp: Vec<bool> = Vec::new();
    let mut i: usize = 0;
    while i < nv
        invariant
            i <= nv,
            st@.len() == i,
            fin@.len() == i,
            arr@.len() == i,
            hp@.len() == i,
            forall|j: int| 0 <= j < i ==> st@[j] == UNVISITED,
        decreases nv - i,
    {
        st.push(UNVISITED);
        fin.push(0);
        arr.push(0);
        hp.push(false);
        i = i + 1;
    }
    let mut clock: usize = 0;
    let ghost mut visited: Set<int> = Set::empty();
    let ghost mut done: Set<int> = Set::empty();
    proof {
        lemma_int_range(0, nv as int);
        reveal(search_ok);
        assert(stack_ok(m, dir, st@, arr@, hp@, Seq::empty(), Seq::empty()));
    }
    let mut root: usize = 0;
    while root < nv
        invariant
            m == g@,
            m.wf(),
            nv == m.vertices.len(),
            root <= nv,
            set_int_range(0, nv as int).finite(),
            set_int_range(0, nv as int).len() == nv,
            search_ok(m, dir, st@, fin@, arr@, hp@, Seq::empty(), Seq::empty(), clock as nat),
            forall|v: int| 0 <= v < root ==> st@[v] == FINISHED,
            forall|v: int| visited.contains(v) <==> 0 <= v < nv && st@[v] != UNVISITED,
            forall|v: int| done.contains(v) <==> 0 <= v < nv && st@[v] == FINISHED,
            visited.finite(),
            done.finite(),
            clock == done.len(),
        decreases nv - root,
    {
        proof {
            lemma_shape(m, dir, st@, fin@, arr@, hp@, Seq::empty(), Seq::empty(), clock as nat);
        }
        if st[root] == UNVISITED {
            let mut sv: Vec<usize> = Vec::new();
            let mut sp: Vec<usize> = Vec::new();
            proof {
                lemma_step_start(m, dir, st@, fin@, arr@, hp@, clock as nat, root);
            }
            st.set(root, ACTIVE);
            hp.set(root, false);
            sv.push(root);
            sp.push(0);
            proof {
                visited = visited.insert(root as int);
                lemma_len_subset(visited, set_int_range(0, nv as int));
                lemma_len_subset(done, set_int_range(0, nv as int));
                assert(sv@ =~= seq![root]);
                assert(sp@ =~= seq![0usize]);
            }
            while sv.len() > 0
                invariant
                    m == g@,
                    m.wf(),
                    nv == m.vertices.len(),
                    root < nv,
                    set_int_range(0, nv as int).finite(),
                    set_int_range(0, nv as int).len() == nv,
                    search_ok(m, dir, st@, fin@, arr@, hp@, sv@, sp@, clock as nat),
                    forall|v: int| 0 <= v < root ==> st@[v] == FINISHED,
                    st@[root as int] != UNVISITED,
                    forall|v: int| visited.contains(v) <==> 0 <= v < nv && st@[v] != UNVISITED,
                    forall|v: int| done.contains(v) <==> 0 <= v < nv && st@[v] == FINISHED,
                    visited.finite(),
                    done.finite(),
                    visited.len() <= nv,
                    done.len() <= nv,
                    clock == done.len(),
                decreases
                    nv - visited.len(),
                    nv - done.len(),
                    if sv@.len() > 0 {
                        m.vertices[sv@.last() as int].incident.len() - sp@.last()
                    } else {
                        0
                    },
            {
                proof {
                    lemma_top(m, dir, st@, fin@, arr@, hp@, sv@, sp@, clock as nat);
                    lemma_shape(m, dir, st@, fin@, arr@, hp@, sv@, sp@, clock as nat);
                }
                let top = sv.len() - 1;
                let u = sv[top];
                let p = sp[top];
                let inc = g.incident_edges(u);
                if p < inc.len() {
                    let f = inc[p];
                    proof {
                        m.lemma_incident_count(u as int, f);
                        assert(inc@.contains(f));
                    }
                    let (s, d) = g.endpoints(f);
                    if dir && s != u {
                        proof {
                            lemma_step_advance(m, dir, st@, fin@, arr@, hp@, sv@, sp@, clock as nat, f);
                        }
                        sp.set(top, p + 1);
                    } else {
                        let t = if s == u { d } else { s };
                        assert(out_edge(m, dir, f, u));
                        assert(target(m, f, u) == t);
                        assert(m.leads(dir, f, u, t));
                        if !dir && hp[u] && arr[u] == f {
                            proof {
                                lemma_step_advance(m, dir, st@, fin@, arr@, hp@, sv@, sp@, clock as nat, f);
                            }
                            sp.set(top, p + 1);
                        } else if st[t] == ACTIVE {
                            proof {
                                lemma_step_back_edge(m, dir, st@, fin@, arr@, hp@, sv@, sp@, clock as nat, f, t);
                            }
                            return true;
                        } else if st[t] == UNVISITED {
                            proof {
                                lemma_step_push(m, dir, st@, fin@, arr@, hp@, sv@, sp@, clock as nat, f, t);
                                assert(!visited.contains(t as int));
                                lemma_len_subset(visited.insert(t as int), set_int_range(0, nv as int));
                            }
                            st.set(t, ACTIVE);
                            arr.set(t, f);
                            hp.set(t, true);
                            sv.push(t);
                            sp.push(0);
                            proof {
                                visited = visited.insert(t as int);
                            }
                        } else {
                            proof {
                                lemma_step_advance(m, dir, st@, fin@, arr@, hp@, sv@, sp@, clock as nat, f);
                            }
                            sp.set(top, p + 1);
                        }
                    }
                } else {
                    proof {
                        assert(!done.contains(u as int));
                        lemma_len_subset(done.insert(u as int), set_int_range(0, nv as int));
                        lemma_step_finish(m, dir, st@, fin@, arr@, hp@, sv@, sp@, clock);
                    }
                    st.set(u, FINISHED);
                    fin.set(u, clock);
                    clock = clock + 1;
                    sv.pop();
                    sp.pop();
                    proof {
                        done = done.insert(u as int);
                    }
                }
            }
            proof {
                lemma_shape(m, dir, st@, fin@, arr@, hp@, sv@, sp@, clock as nat);
                assert(sv@ =~= Seq::<usize>::empty());
                assert(sp@ =~= Seq::<usize>::empty());
            }
        }
        proof {
            lemma_shape(m, dir, st@, fin@, arr@, hp@, Seq::empty(), Seq::empty(), clock as nat);
            assert(st@[root as int] == FINISHED);
        }
        root = root + 1;
    }
    proof {
        lemma_shape(m, dir, st@, fin@, arr@, hp@, Seq::empty(), Seq::empty(), clock as nat);
        lemma_search_done(m, dir, st@, fin@, arr@, hp@, clock as nat);
    }
    false
}

/// Vertex `s[i]` is led to by an edge from some vertex listed before it.
pub open spec fn led_from_earlier<V, E>(m: GraphModel<V, E>, dir: bool, s: Seq<usize>, i: int) -> bool {
    exists|j: int, f: usize| 0 <= j < i && #[trigger] m.leads(dir, f, s[j], s[i])
}

/// `r` lists, depth first and each once, the vertices that walks from the
/// source of the first edge reach, starting with that source; nothing when
/// there is no edge.
pub open spec fn is_traversal<V, E>(m: GraphModel<V, E>, dir: bool, r: Seq<usize>) -> bool {
    &&& m.edges.len() == 0 ==> r.len() == 0
    &&& m.edges.len() > 0 ==> r.len() > 0 && r[0] == m.edges[0].source
    &&& r.no_duplicates()
    &&& forall|i: int| 0 <= i < r.len() ==> #[trigger] r[i] < m.vertices.len()
    &&& forall|i: int| 0 < i < r.len() ==> #[trigger] led_from_earlier(m, dir, r, i)
    &&& m.edges.len() > 0 ==> forall|v: usize| m.reaches(dir, m.edges[0].source, v) ==> #[trigger] r.contains(v)
}

/// Every edge away from a visited vertex that is not on the stack leads to
/// a visited vertex.
spec fn closed_off<V, E>(m: GraphModel<V, E>, dir: bool, seen: Seq<bool>, on_stack: Seq<usize>, x: usize) -> bool {
    seen[x as int] && !on_stack.contains(x) ==> forall|f: usize|
        #[trigger] out_edge(m, dir, f, x) ==> seen[target(m, f, x) as int]
}

/// A walk that starts at a visited vertex, in a graph where every visited
/// vertex has only visited neighbours, stays among visited vertices.
proof fn lemma_walk_stays<V, E>(m: GraphModel<V, E>, dir: bool, seen: Seq<bool>, vs: Seq<usize>, es: Seq<usize>, j: int)
    requires
        m.wf(),
        seen.len() == m.vertices.len(),
        forall|x: usize|
            x < m.vertices.len() && #[trigger] seen[x as int] ==> forall|f: usize|
                #[trigger] out_edge(m, dir, f, x) ==> seen[target(m, f, x) as int],
        m.is_walk(dir, vs, es),
        vs[0] < m.vertices.len(),
        seen[vs[0] as int],
        0 <= j < vs.len(),
    ensures
        seen[vs[j] as int],
        vs[j] < m.vertices.len(),
    decreases j,
{
    if j > 0 {
        lemma_walk_stays(m, dir, seen, vs, es, j - 1);
        let f = es[j - 1];
        assert(m.leads(dir, f, vs[j - 1], vs[j]));
        assert(out_edge(m, dir, f, vs[j - 1]));
        assert(target(m, f, vs[j - 1]) == vs[j]);
    }
}

/// Lists, depth first and each once, the vertices that walks from the
/// source of the first edge reach, starting with that source. A graph
/// without edges gives an empty list.
pub fn traverse_from_first_edge<V, E, D: EdgeType, C: Cyclicness>(g: &UnstableGraph<V, E, D, C>, dir: bool) -> (r: Vec<usize>)
    requires
        g@.wf(),
    ensures
        is_traversal(g@, dir, r@),
{
    let ghost m = g@;
    if g.edge_count() == 0 {
        return Vec::new();
    }
    let nv = g.vertex_count();
    let (root, _) = g.endpoints(0);
    let mut seen: Vec<bool> = Vec::new();
    let mut i: usize = 0;
    while i < nv
        invariant
            i <= nv,
            seen@.len() == i,
            forall|j: int| 0 <= j < i ==> !seen@[j],
        decreases nv - i,
    {
        seen.push(false);
        i = i + 1;
    }
    let ghost mut visited: Set<int> = Set::empty();
    proof {
        lemma_int_range(0, nv as int);
        assert(m.edges[0].source < nv);
    }
    let mut order: Vec<usize> = Vec::new();
    let mut sv: Vec<usize> = Vec::new();
    let mut sp: Vec<usize> = Vec::new();
    seen.set(root, true);
    order.push(root);
    sv.push(root);
    sp.push(0);
    proof {
        visited = visited.insert(root as int);
        lemma_len_subset(visited, set_int_range(0, nv as int));
        assert(sv@[0] == root);
    }
    while sv.len() > 0
        invariant
            m == g@,
            m.wf(),
            nv == m.vertices.len(),
            root == m.edges[0].source,
            root < nv,
            seen@.len() == nv,
            set_int_range(0, nv as int).finite(),
            set_int_range(0, nv as int).len() == nv,
            forall|v: int| visited.contains(v) <==> 0 <= v < nv && seen@[v],
            visited.finite(),
            visited.len() <= nv,
            sv@.len() == sp@.len(),
            forall|k1: int, k2: int| 0 <= k1 < k2 < sv@.len() ==> sv@[k1] != sv@[k2],
            forall|k: int|
                0 <= k < sv@.len() ==> #[trigger] sv@[k] < nv && seen@[sv@[k] as int] && sp@[k]
                    <= m.vertices[sv@[k] as int].incident.len(),
            forall|k: int, q: int|
                0 <= k < sv@.len() && 0 <= q < sp@[k] ==> {
                    let f = #[trigger] m.vertices[sv@[k] as int].incident[q];
                    out_edge(m, dir, f, sv@[k]) ==> seen@[target(m, f, sv@[k]) as int]
                },
            forall|x: usize| x < nv ==> #[trigger] closed_off(m, dir, seen@, sv@, x),
            order@.len() > 0,
            order@[0] == root,
            order@.no_duplicates(),
            forall|i: int| 0 <= i < order@.len() ==> #[trigger] order@[i] < nv,
            forall|v: int| 0 <= v < nv ==> (seen@[v] <==> order@.contains(v as usize)),
            forall|i: int| 0 < i < order@.len() ==> #[trigger] led_from_earlier(g@, dir, order@, i),
        decreases
            nv - visited.len(),
            sv@.len(),
            if sv@.len() > 0 {
                m.vertices[sv@.last() as int].incident.len() - sp@.last()
            } else {
                0
            },
    {
        let top = sv.len() - 1;
        let u = sv[top];
        let p = sp[top];
        let inc = g.incident_edges(u);
        if p < inc.len() {
            let f = inc[p];
            proof {
                m.lemma_incident_count(u as int, f);
                assert(inc@.contains(f));
            }
            let (s, d) = g.endpoints(f);
            sp.set(top, p + 1);
            if !dir || s == u {
                let t = if s == u { d } else { s };
                assert(out_edge(m, dir, f, u));
                assert(target(m, f, u) == t);
                assert(m.leads(dir, f, u, t));
                if !seen[t] {
                    let ghost order0 = order@;
                    let ghost sv0 = sv@;
                    let ghost seen0 = seen@;
                    proof {
                        assert(order0.contains(u));
                        assert(!order0.contains(t));
                        assert(!visited.contains(t as int));
                        lemma_len_subset(visited.insert(t as int), set_int_range(0, nv as int));
                    }
                    seen.set(t, true);
                    order.push(t);
                    sv.push(t);
                    sp.push(0);
                    proof {
                        visited = visited.insert(t as int);
                        let k_u = choose|k: int| 0 <= k < order0.len() && order0[k] == u;
                        assert(order@[k_u] == u);
                        assert(order@[order@.len() - 1] == t);
                        assert forall|v: int| 0 <= v < nv implies (seen@[v] <==> order@.contains(v as usize)) by {
                            if v == t {
                                assert(order@.contains(t));
                            } else {
                                assert(seen@[v] == seen0[v]);
                                if order0.contains(v as usize) {
                                    let k = choose|k: int| 0 <= k < order0.len() && order0[k] == v as usize;
                                    assert(order@[k] == v as usize);
                                }
                                if order@.contains(v as usize) {
                                    let k = choose|k: int| 0 <= k < order@.len() && order@[k] == v as usize;
                                    assert(k < order0.len());
                                    assert(order0[k] == v as usize);
                                }
                            }
                        }
                        assert(m.leads(dir, f, order@[k_u], order@[order@.len() - 1]));
                        assert forall|i: int| 0 < i < order@.len() implies #[trigger] led_from_earlier(g@, dir, order@, i) by {
                            if i < order@.len() - 1 {
                                assert(led_from_earlier(g@, dir, order0, i));
                                let (j, f2) = choose|j: int, f: usize| 0 <= j < i && #[trigger] g@.leads(dir, f, order0[j], order0[i]);
                                assert(order@[j] == order0[j]);
                                assert(order@[i] == order0[i]);
                                assert(g@.leads(dir, f2, order@[j], order@[i]));
                            } else {
                                assert(g@.leads(dir, f, order@[k_u], order@[i]));
                            }
                        }
                        assert forall|k1: int, k2: int| 0 <= k1 < k2 < sv@.len() implies sv@[k1] != sv@[k2] by {
                            if k2 < sv@.len() - 1 {
                                assert(sv@[k1] == sv0[k1] && sv@[k2] == sv0[k2]);
                            } else {
                                assert(sv@[k1] == sv0[k1]);
                            }
                        }
                        assert forall|x: usize| x < nv implies #[trigger] closed_off(m, dir, seen@, sv@, x) by {
                            if x != t && seen@[x as int] && !sv@.contains(x) {
                                assert(!sv0.contains(x)) by {
                                    if sv0.contains(x) {
                                        let k = choose|k: int| 0 <= k < sv0.len() && sv0[k] == x;
                                        assert(sv@[k] == x);
                                    }
                                }
                                assert(closed_off(m, dir, seen0, sv0, x));
                            }
                            if x == t {
                                assert(sv@.contains(t)) by {
                                    assert(sv@[sv@.len() - 1] == t);
                                }
                            }
                        }
                    }
                }
            }
        } else {
            let ghost sv0 = sv@;
            sv.pop();
            sp.pop();
            proof {
                assert forall|x: usize| x < nv implies #[trigger] closed_off(m, dir, seen@, sv@, x) by {
                    if x == u {
                        assert forall|f: usize| #[trigger] out_edge(m, dir, f, x) implies seen@[target(m, f, x) as int] by {
                            m.lemma_incident_count(u as int, f);
                            assert(inc@.contains(f));
                            let q = choose|q: int| 0 <= q < inc@.len() && inc@[q] == f;
                            assert(sv0[top as int] == u);
                            assert(m.vertices[sv0[top as int] as int].incident[q] == f);
                        }
                    } else if seen@[x as int] && !sv@.contains(x) {
                        assert(!sv0.contains(x)) by {
                            if sv0.contains(x) {
                                let k = choose|k: int| 0 <= k < sv0.len() && sv0[k] == x;
                                assert(k != top);
                                assert(sv@[k] == x);
                            }
                        }
                        assert(closed_off(m, dir, seen@, sv0, x));
                    }
                }
                assert forall|k: int| 0 <= k < sv@.len() implies #[trigger] sv@[k] < nv && seen@[sv@[k] as int] && sp@[k]
                    <= m.vertices[sv@[k] as int].incident.len() by {
                    assert(sv@[k] == sv0[k]);
                }
            }
        }
    }
    proof {
        assert forall|v: usize| m.reaches(dir, root, v) implies #[trigger] order@.contains(v) by {
            let (vs, es) = choose|vs: Seq<usize>, es: Seq<usize>| m.is_walk(dir, vs, es) && vs[0] == root && vs.last() == v;
            assert forall|x: usize|
                x < m.vertices.len() && #[trigger] seen@[x as int] implies forall|f: usize|
                    #[trigger] out_edge(m, dir, f, x) ==> seen@[target(m, f, x) as int] by {
                assert(closed_off(m, dir, seen@, sv@, x));
            }
            lemma_walk_stays(m, dir, seen@, vs, es, vs.len() - 1);
        }
    }
    order
}

/// A depth-first traversal of a graph, taken as a snapshot when it is
/// made: changes to the graph afterwards do not reach it. It hands out the
/// vertices one at a time and knows whether the graph held a cycle.
pub struct Dft {
    order: Vec<usize>,
    counter: usize,
    has_cycle: bool,
}

impl Dft {
    /// The vertices in the order of the traversal.
    pub closed spec fn spec_order(&self) -> Seq<usize> {
        self.order@
    }

    /// How many vertices have been handed out.
    pub closed spec fn spec_counter(&self) -> nat {
        self.counter as nat
    }

    /// Whether the graph held a cycle.
    pub closed spec fn spec_cycles(&self) -> bool {
        self.has_cycle
    }

    /// Takes a traversal of `graph`.
    pub fn new<V, E, D: EdgeType, C: Cyclicness>(graph: &UnstableGraph<V, E, D, C>) -> (r: Dft)
        requires
            graph.inv(),
        ensures
            is_traversal(graph@, D::directed(), r.spec_order()),
            r.spec_counter() == 0,
            r.spec_cycles() == graph@.has_cycle(D::directed()),
    {
        Dft { order: graph.traverse(), counter: 0, has_cycle: graph.cycles() }
    }

    /// Returns `true` if the graph held a cycle when the traversal was taken.
    pub fn cycles(&self) -> (r: bool)
        ensures
            r == self.spec_cycles(),
    {
        self.has_cycle
    }

    /// The next vertex of the traversal, if any is left.
    pub fn next(&mut self) -> (r: Option<usize>)
        ensures
            final(self).spec_order() == old(self).spec_order(),
            final(self).spec_cycles() == old(self).spec_cycles(),
            old(self).spec_counter() < old(self).spec_order().len() ==> r == Some(
                old(self).spec_order()[old(self).spec_counter() as int],
            ) && final(self).spec_counter() == old(self).spec_counter() + 1,
            old(self).spec_counter() >= old(self).spec_order().len() ==> r.is_none()
                && final(self).spec_counter() == old(self).spec_counter(),
    {
        if self.counter < self.order.len() {
            let v = self.order[self.counter];
            self.counter = self.counter + 1;
            Some(v)
        } else {
            None
        }
    }
}

} // verus!
