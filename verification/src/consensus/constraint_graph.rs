//! Mathematical model of the constraint graph kept by the DAG: the Avalanche state of each conflict
//! set, the invariant every DAG operation keeps, and how inserting a vertex changes the graph.
use crate::collections::{lemma_seq_insert_all, seq_insert, seq_insert_all};
use crate::consensus::vertex::{
    constraint_seq, key_of, lemma_key_of, pairs_from, row_from, spec_is_unity, spec_opposite,
    unity_rev, ConflictSetKey, Constraint, VertexHash, VertexView,
};
use vstd::prelude::*;

verus! {

/// Mathematical model of a conflict set
pub ghost struct ConflictSetView {
    pub preferred: Constraint,
    pub last: Constraint,
    pub chit: Map<Constraint, bool>,
    pub confidence: Map<Constraint, usize>,
    pub count: Map<Constraint, usize>,
    pub parents: Map<Constraint, Seq<Constraint>>,
    pub children: Map<Constraint, Seq<Constraint>>,
    pub decision: Map<Constraint, bool>,
}

/// The constraints of the conflict set that `c` starts
pub open spec fn cs_members(c: Constraint) -> Set<Constraint> {
    if spec_is_unity(c) {
        set![c]
    } else {
        set![c, spec_opposite(c)]
    }
}

/// A fresh conflict set for `c`, whose parents in the constraint graph are `ps`
pub open spec fn new_cs_view(c: Constraint, ps: Seq<Constraint>) -> ConflictSetView {
    ConflictSetView {
        preferred: c,
        last: c,
        chit: Map::new(|d: Constraint| cs_members(c).contains(d), |d: Constraint| false),
        confidence: Map::new(|d: Constraint| cs_members(c).contains(d), |d: Constraint| 0usize),
        count: Map::new(|d: Constraint| cs_members(c).contains(d), |d: Constraint| 0usize),
        parents: Map::new(
            |d: Constraint| cs_members(c).contains(d),
            |d: Constraint|
                if d == c {
                    ps
                } else {
                    Seq::empty()
                },
        ),
        children: Map::new(
            |d: Constraint| cs_members(c).contains(d),
            |d: Constraint| Seq::<Constraint>::empty(),
        ),
        decision: Map::empty(),
    }
}

/// Larger of two integers
pub open spec fn max_int(a: int, b: int) -> int {
    if a < b {
        b
    } else {
        a
    }
}

/// Parent ordering constraints of a known vertex
pub open spec fn pcs_of(vx: Map<VertexHash, VertexView>, h: VertexHash) -> Seq<Constraint> {
    constraint_seq(vx[h].parents)
}

/// Rank of a constraint in the constraint graph, from the order in which its vertices entered
/// the graph: parents always rank lower than their children
pub open spec fn rank_of(order: Map<VertexHash, nat>, c: Constraint) -> int {
    2 * max_int(order[c.0] as int, order[c.1] as int) + (if c.0 == c.1 {
        1int
    } else {
        0int
    })
}

/// Parents of a constraint in the constraint graph: the parent constraints of its two vertices,
/// each once
pub open spec fn cparents_of(vx: Map<VertexHash, VertexView>, c: Constraint) -> Seq<Constraint> {
    seq_insert_all(seq_insert_all(Seq::empty(), pcs_of(vx, c.0)), pcs_of(vx, c.1))
}

/// Vertices of the graph are known and numbered by the order in which they entered the graph; their
/// parents are in the graph, with lower numbers; the frontier only holds known vertices
pub open spec fn inv_graph(
    vx: Map<VertexHash, VertexView>,
    graph: Set<VertexHash>,
    order: Map<VertexHash, nat>,
    next: nat,
    frontier: Set<VertexHash>,
) -> bool {
    &&& forall|h: VertexHash| #[trigger] graph.contains(h) ==> vx.dom().contains(h)
    &&& forall|h: VertexHash|
        #![trigger order.dom().contains(h)]
        #![trigger graph.contains(h)]
        order.dom().contains(h) <==> graph.contains(h)
    &&& forall|h: VertexHash| #[trigger] graph.contains(h) ==> order[h] < next
    &&& forall|h: VertexHash, p: VertexHash|
        #![trigger graph.contains(h), vx[h].parents.contains(p)]
        graph.contains(h) && vx[h].parents.contains(p) ==> graph.contains(p) && order[p] < order[h]
    &&& forall|h: VertexHash| #[trigger] frontier.contains(h) ==> vx.dom().contains(h)
}

/// Every constraint of a vertex in the graph has a conflict set
pub open spec fn inv_constraints(
    vx: Map<VertexHash, VertexView>,
    graph: Set<VertexHash>,
    keys: Set<ConflictSetKey>,
) -> bool {
    &&& forall|h: VertexHash, c: Constraint|
        #![trigger graph.contains(h), pcs_of(vx, h).contains(c)]
        graph.contains(h) && pcs_of(vx, h).contains(c) ==> keys.contains(key_of(c))
    &&& forall|h: VertexHash| #[trigger]
        graph.contains(h) ==> keys.contains(key_of(Constraint(h, h)))
}

/// Constraint `d` belongs to the constraint graph: its vertices are in the graph and its conflict
/// set is among `keys`
pub open spec fn in_graph(graph: Set<VertexHash>, keys: Set<ConflictSetKey>, d: Constraint) -> bool {
    &&& keys.contains(key_of(d))
    &&& graph.contains(d.0)
    &&& graph.contains(d.1)
}

/// The conflict set `cs`, stored at key `k`, is well formed: it has an entry for exactly the
/// constraints of its key, and its parents rank lower and its children higher than its members
pub open spec fn inv_cs(
    graph: Set<VertexHash>,
    order: Map<VertexHash, nat>,
    keys: Set<ConflictSetKey>,
    k: ConflictSetKey,
    cs: ConflictSetView,
) -> bool {
    &&& forall|c: Constraint| #[trigger]
        key_of(c) == k ==> graph.contains(c.0) && graph.contains(c.1)
    &&& forall|c: Constraint| #[trigger] cs.chit.dom().contains(c) <==> key_of(c) == k
    &&& forall|c: Constraint| #[trigger] cs.confidence.dom().contains(c) <==> key_of(c) == k
    &&& forall|c: Constraint| #[trigger] cs.count.dom().contains(c) <==> key_of(c) == k
    &&& forall|c: Constraint| #[trigger] cs.parents.dom().contains(c) <==> key_of(c) == k
    &&& forall|c: Constraint| #[trigger] cs.children.dom().contains(c) <==> key_of(c) == k
    &&& forall|c: Constraint| #[trigger] cs.decision.dom().contains(c) ==> key_of(c) == k
    &&& key_of(cs.preferred) == k
    &&& key_of(cs.last) == k
    &&& forall|c: Constraint, p: Constraint|
        #![trigger cs.parents[c].contains(p)]
        cs.parents.dom().contains(c) && cs.parents[c].contains(p) ==> in_graph(graph, keys, p)
            && rank_of(order, p) < rank_of(order, c)
    &&& forall|c: Constraint, d: Constraint|
        #![trigger cs.children[c].contains(d)]
        cs.children.dom().contains(c) && cs.children[c].contains(d) ==> in_graph(graph, keys, d)
            && rank_of(order, c) < rank_of(order, d)
}

/// Every conflict set is well formed
pub open spec fn inv_states(
    graph: Set<VertexHash>,
    order: Map<VertexHash, nat>,
    st: Map<ConflictSetKey, ConflictSetView>,
) -> bool {
    forall|k: ConflictSetKey| #[trigger]
        st.dom().contains(k) ==> inv_cs(graph, order, st.dom(), k, st[k])
}

/// The invariant of the DAG
#[verifier::opaque]
pub open spec fn dag_inv(
    vx: Map<VertexHash, VertexView>,
    graph: Set<VertexHash>,
    order: Map<VertexHash, nat>,
    next: nat,
    st: Map<ConflictSetKey, ConflictSetView>,
    frontier: Set<VertexHash>,
) -> bool {
    &&& inv_graph(vx, graph, order, next, frontier)
    &&& inv_constraints(vx, graph, st.dom())
    &&& inv_states(graph, order, st)
}

/// The invariant holds for any frontier of known vertices
pub proof fn lemma_frontier_inv(
    vx: Map<VertexHash, VertexView>,
    graph: Set<VertexHash>,
    order: Map<VertexHash, nat>,
    next: nat,
    st: Map<ConflictSetKey, ConflictSetView>,
    frontier: Set<VertexHash>,
    frontier2: Set<VertexHash>,
)
    requires
        dag_inv(vx, graph, order, next, st, frontier),
        forall|h: VertexHash| #[trigger] frontier2.contains(h) ==> vx.dom().contains(h),
    ensures
        dag_inv(vx, graph, order, next, st, frontier2),
{
    reveal(dag_inv);
}

/// Both vertices of a parent ordering constraint are parents
pub proof fn lemma_constraint_seq_vertices(v: Seq<VertexHash>, c: Constraint)
    requires
        constraint_seq(v).contains(c),
    ensures
        v.contains(c.0),
        v.contains(c.1),
{
    let s = constraint_seq(v);
    let i = choose|i: int| 0 <= i < s.len() && s[i] == c;
    let p = pairs_from(v, 0);
    if i < p.len() {
        lemma_pairs_from_vertices(v, 0, i);
    } else {
        lemma_unity_rev_vertices(v, i - p.len());
    }
}

proof fn lemma_pairs_from_vertices(v: Seq<VertexHash>, a: int, i: int)
    requires
        0 <= a,
        0 <= i < pairs_from(v, a).len(),
    ensures
        v.contains(pairs_from(v, a)[i].0),
        v.contains(pairs_from(v, a)[i].1),
    decreases v.len() - a,
{
    let r = row_from(v, a, a + 1);
    if i < r.len() {
        assert(pairs_from(v, a)[i] == r[i]);
        assert(v[a] == r[i].0);
        assert(v[a + 1 + i] == r[i].1);
    } else {
        assert(pairs_from(v, a)[i] == pairs_from(v, a + 1)[i - r.len()]);
        lemma_pairs_from_vertices(v, a + 1, i - r.len());
    }
}

proof fn lemma_unity_rev_vertices(v: Seq<VertexHash>, i: int)
    requires
        0 <= i < unity_rev(v).len(),
    ensures
        v.contains(unity_rev(v)[i].0),
        v.contains(unity_rev(v)[i].1),
    decreases v.len(),
{
    if i == 0 {
        assert(v[v.len() - 1] == unity_rev(v)[0].0);
    } else {
        assert(unity_rev(v)[i] == unity_rev(v.drop_last())[i - 1]);
        lemma_unity_rev_vertices(v.drop_last(), i - 1);
        let x = unity_rev(v)[i].0;
        let j = choose|j: int| 0 <= j < v.drop_last().len() && v.drop_last()[j] == x;
        assert(v[j] == x);
    }
}

/// The members of a fresh conflict set are the constraints sharing its key
pub proof fn lemma_cs_members(c: Constraint)
    ensures
        forall|d: Constraint| #[trigger] cs_members(c).contains(d) <==> key_of(d) == key_of(c),
{
    assert forall|d: Constraint| #[trigger] cs_members(c).contains(d) <==> key_of(d) == key_of(c) by {
        lemma_key_of(c, d);
    }
}

/// Conflict set `cs` after registering `c` as a known child of its member `p`
pub open spec fn cs_add_child(cs: ConflictSetView, p: Constraint, c: Constraint) -> ConflictSetView {
    ConflictSetView {
        children: cs.children.insert(
            p,
            seq_insert(
                if cs.children.dom().contains(p) {
                    cs.children[p]
                } else {
                    Seq::empty()
                },
                c,
            ),
        ),
        ..cs
    }
}

/// Conflict sets after registering `c` as a known child of `p`
pub open spec fn register_child(
    st: Map<ConflictSetKey, ConflictSetView>,
    p: Constraint,
    c: Constraint,
) -> Map<ConflictSetKey, ConflictSetView> {
    if st.dom().contains(key_of(p)) {
        st.insert(key_of(p), cs_add_child(st[key_of(p)], p, c))
    } else {
        st
    }
}

/// Conflict sets after registering `c` as a known child of each of `ps`, in order
pub open spec fn register_all(
    st: Map<ConflictSetKey, ConflictSetView>,
    ps: Seq<Constraint>,
    c: Constraint,
) -> Map<ConflictSetKey, ConflictSetView>
    decreases ps.len(),
{
    if ps.len() == 0 {
        st
    } else {
        register_child(register_all(st, ps.drop_last(), c), ps.last(), c)
    }
}

/// Conflict sets after constraint `c` enters the constraint graph: it becomes a known child of each
/// of its parents, and gets a fresh conflict set unless its key already has one
pub open spec fn enter_constraint(
    st: Map<ConflictSetKey, ConflictSetView>,
    vx: Map<VertexHash, VertexView>,
    c: Constraint,
) -> Map<ConflictSetKey, ConflictSetView> {
    let ps = cparents_of(vx, c);
    let st1 = register_all(st, ps, c);
    if st1.dom().contains(key_of(c)) {
        st1
    } else {
        st1.insert(key_of(c), new_cs_view(c, ps))
    }
}

/// Conflict sets after each of `cs` enters the constraint graph, in order
pub open spec fn enter_all(
    st: Map<ConflictSetKey, ConflictSetView>,
    vx: Map<VertexHash, VertexView>,
    cs: Seq<Constraint>,
) -> Map<ConflictSetKey, ConflictSetView>
    decreases cs.len(),
{
    if cs.len() == 0 {
        st
    } else {
        enter_constraint(enter_all(st, vx, cs.drop_last()), vx, cs.last())
    }
}

/// A well-formed conflict set stays well formed when the graph and the keys grow and the vertices
/// already in the graph keep their numbers
pub proof fn lemma_inv_cs_extend(
    graph: Set<VertexHash>,
    order: Map<VertexHash, nat>,
    keys: Set<ConflictSetKey>,
    graph2: Set<VertexHash>,
    order2: Map<VertexHash, nat>,
    keys2: Set<ConflictSetKey>,
    k: ConflictSetKey,
    cs: ConflictSetView,
)
    requires
        inv_cs(graph, order, keys, k, cs),
        graph.subset_of(graph2),
        keys.subset_of(keys2),
        forall|h: VertexHash| #[trigger] graph.contains(h) ==> order2[h] == order[h],
    ensures
        inv_cs(graph2, order2, keys2, k, cs),
{
    assert forall|c: Constraint, p: Constraint|
        #![trigger cs.parents[c].contains(p)]
        cs.parents.dom().contains(c) && cs.parents[c].contains(p) implies in_graph(graph2, keys2, p)
        && rank_of(order2, p) < rank_of(order2, c) by {
        assert(key_of(c) == k);
        assert(graph.contains(c.0) && graph.contains(c.1));
        assert(in_graph(graph, keys, p));
    }
    assert forall|c: Constraint, d: Constraint|
        #![trigger cs.children[c].contains(d)]
        cs.children.dom().contains(c) && cs.children[c].contains(d) implies in_graph(
        graph2,
        keys2,
        d,
    ) && rank_of(order2, c) < rank_of(order2, d) by {
        assert(key_of(c) == k);
        assert(graph.contains(c.0) && graph.contains(c.1));
        assert(in_graph(graph, keys, d));
    }
}

/// Registering a child keeps every conflict set well formed, with the child's key among the keys
proof fn lemma_register_child(
    graph: Set<VertexHash>,
    order: Map<VertexHash, nat>,
    st: Map<ConflictSetKey, ConflictSetView>,
    keys: Set<ConflictSetKey>,
    p: Constraint,
    c: Constraint,
)
    requires
        forall|k: ConflictSetKey| #[trigger]
            st.dom().contains(k) ==> inv_cs(graph, order, keys, k, st[k]),
        keys.contains(key_of(c)),
        graph.contains(c.0),
        graph.contains(c.1),
        rank_of(order, p) < rank_of(order, c),
    ensures
        register_child(st, p, c).dom() == st.dom(),
        forall|k: ConflictSetKey| #[trigger]
            register_child(st, p, c).dom().contains(k) ==> inv_cs(
                graph,
                order,
                keys,
                k,
                register_child(st, p, c)[k],
            ),
{
    let st2 = register_child(st, p, c);
    if st.dom().contains(key_of(p)) {
        let k = key_of(p);
        let cs = st[k];
        let cs2 = cs_add_child(cs, p, c);
        assert(inv_cs(graph, order, keys, k, cs));
        assert(cs.children.dom().contains(p));
        assert(cs2.children.dom() =~= cs.children.dom());
        assert forall|e: Constraint, d: Constraint|
            #![trigger cs2.children[e].contains(d)]
            cs2.children.dom().contains(e) && cs2.children[e].contains(d) implies in_graph(
            graph,
            keys,
            d,
        ) && rank_of(order, e) < rank_of(order, d) by {
            if e == p {
                if d != c {
                    let s0 = cs.children[e];
                    assert(s0.push(c).contains(d) ==> s0.contains(d)) by {
                        if s0.push(c).contains(d) {
                            let j = choose|j: int| 0 <= j < s0.push(c).len() && s0.push(c)[j] == d;
                            assert(s0[j] == d);
                        }
                    }
                    assert(cs.children[e].contains(d));
                }
            } else {
                assert(cs2.children[e] == cs.children[e]);
            }
        }
        assert(inv_cs(graph, order, keys, k, cs2));
        assert(st2.dom() =~= st.dom());
    }
}

/// Registering a child with each of its parents keeps every conflict set well formed, with the
/// child's key among the keys
proof fn lemma_register_all(
    graph: Set<VertexHash>,
    order: Map<VertexHash, nat>,
    st: Map<ConflictSetKey, ConflictSetView>,
    keys: Set<ConflictSetKey>,
    ps: Seq<Constraint>,
    c: Constraint,
)
    requires
        forall|k: ConflictSetKey| #[trigger]
            st.dom().contains(k) ==> inv_cs(graph, order, keys, k, st[k]),
        keys.contains(key_of(c)),
        graph.contains(c.0),
        graph.contains(c.1),
        forall|p: Constraint| #[trigger] ps.contains(p) ==> rank_of(order, p) < rank_of(order, c),
    ensures
        register_all(st, ps, c).dom() == st.dom(),
        forall|k: ConflictSetKey| #[trigger]
            register_all(st, ps, c).dom().contains(k) ==> inv_cs(
                graph,
                order,
                keys,
                k,
                register_all(st, ps, c)[k],
            ),
    decreases ps.len(),
{
    if ps.len() > 0 {
        assert forall|p: Constraint| #[trigger] ps.drop_last().contains(p) implies rank_of(order, p)
            < rank_of(order, c) by {
            let i = choose|i: int| 0 <= i < ps.drop_last().len() && ps.drop_last()[i] == p;
            assert(ps[i] == p);
            assert(ps.contains(p));
        }
        lemma_register_all(graph, order, st, keys, ps.drop_last(), c);
        assert(ps.contains(ps[ps.len() - 1]));
        lemma_register_child(graph, order, register_all(st, ps.drop_last(), c), keys, ps.last(), c);
    }
}

/// A fresh conflict set is well formed when the constraint's vertices are in the graph and its
/// parents are in the constraint graph, ranked lower
proof fn lemma_new_cs_inv(
    graph: Set<VertexHash>,
    order: Map<VertexHash, nat>,
    keys: Set<ConflictSetKey>,
    c: Constraint,
    ps: Seq<Constraint>,
)
    requires
        graph.contains(c.0),
        graph.contains(c.1),
        forall|p: Constraint| #[trigger]
            ps.contains(p) ==> in_graph(graph, keys, p) && rank_of(order, p) < rank_of(order, c),
    ensures
        inv_cs(graph, order, keys, key_of(c), new_cs_view(c, ps)),
{
    let k = key_of(c);
    let cs = new_cs_view(c, ps);
    lemma_cs_members(c);
    assert forall|d: Constraint| #[trigger] key_of(d) == k implies graph.contains(d.0)
        && graph.contains(d.1) by {
        lemma_key_of(c, d);
    }
    assert forall|d: Constraint, p: Constraint|
        #![trigger cs.parents[d].contains(p)]
        cs.parents.dom().contains(d) && cs.parents[d].contains(p) implies in_graph(graph, keys, p)
        && rank_of(order, p) < rank_of(order, d) by {
        if d != c {
            assert(cs.parents[d] == Seq::<Constraint>::empty());
        }
    }
    lemma_key_of(c, c);
}

/// A constraint entering the constraint graph keeps every conflict set well formed, and adds its
/// key to the conflict sets
pub proof fn lemma_enter_constraint(
    graph: Set<VertexHash>,
    order: Map<VertexHash, nat>,
    st: Map<ConflictSetKey, ConflictSetView>,
    vx: Map<VertexHash, VertexView>,
    c: Constraint,
)
    requires
        inv_states(graph, order, st),
        graph.contains(c.0),
        graph.contains(c.1),
        forall|p: Constraint| #[trigger]
            cparents_of(vx, c).contains(p) ==> in_graph(graph, st.dom(), p) && rank_of(order, p)
                < rank_of(order, c),
    ensures
        inv_states(graph, order, enter_constraint(st, vx, c)),
        enter_constraint(st, vx, c).dom() == st.dom().insert(key_of(c)),
{
    let ps = cparents_of(vx, c);
    let keys = st.dom().insert(key_of(c));
    assert forall|k: ConflictSetKey| #[trigger] st.dom().contains(k) implies inv_cs(
        graph,
        order,
        keys,
        k,
        st[k],
    ) by {
        lemma_inv_cs_extend(graph, order, st.dom(), graph, order, keys, k, st[k]);
    }
    lemma_register_all(graph, order, st, keys, ps, c);
    let st1 = register_all(st, ps, c);
    let st2 = enter_constraint(st, vx, c);
    if !st1.dom().contains(key_of(c)) {
        assert forall|p: Constraint| #[trigger] ps.contains(p) implies in_graph(graph, keys, p)
            && rank_of(order, p) < rank_of(order, c) by {
            assert(in_graph(graph, st.dom(), p));
        }
        lemma_new_cs_inv(graph, order, keys, c, ps);
        assert(st2.dom() =~= keys);
    } else {
        assert(st2.dom() =~= keys);
    }
}

/// Constraints entering the constraint graph, one after the other, keep every conflict set well
/// formed, and add their keys to the conflict sets
pub proof fn lemma_enter_all(
    graph: Set<VertexHash>,
    order: Map<VertexHash, nat>,
    st: Map<ConflictSetKey, ConflictSetView>,
    vx: Map<VertexHash, VertexView>,
    cs: Seq<Constraint>,
)
    requires
        inv_states(graph, order, st),
        forall|j: int|
            #![trigger cs[j]]
            0 <= j < cs.len() ==> graph.contains(cs[j].0) && graph.contains(cs[j].1),
        forall|j: int, p: Constraint|
            0 <= j < cs.len() && #[trigger] cparents_of(vx, cs[j]).contains(p) ==> in_graph(
                graph,
                st.dom(),
                p,
            ) && rank_of(order, p) < rank_of(order, cs[j]),
    ensures
        inv_states(graph, order, enter_all(st, vx, cs)),
        forall|k: ConflictSetKey| #[trigger]
            enter_all(st, vx, cs).dom().contains(k) <==> st.dom().contains(k) || exists|j: int|
                0 <= j < cs.len() && key_of(#[trigger] cs[j]) == k,
        st.dom().subset_of(enter_all(st, vx, cs).dom()),
    decreases cs.len(),
{
    if cs.len() > 0 {
        let cs0 = cs.drop_last();
        assert forall|j: int| #![trigger cs0[j]] 0 <= j < cs0.len() implies graph.contains(cs0[j].0)
            && graph.contains(cs0[j].1) by {
            assert(cs0[j] == cs[j]);
        }
        assert forall|j: int, p: Constraint|
            0 <= j < cs0.len() && #[trigger] cparents_of(vx, cs0[j]).contains(p) implies in_graph(
            graph,
            st.dom(),
            p,
        ) && rank_of(order, p) < rank_of(order, cs0[j]) by {
            assert(cs0[j] == cs[j]);
        }
        lemma_enter_all(graph, order, st, vx, cs0);
        let st1 = enter_all(st, vx, cs0);
        let c = cs[cs.len() - 1];
        assert forall|p: Constraint| #[trigger] cparents_of(vx, c).contains(p) implies in_graph(
            graph,
            st1.dom(),
            p,
        ) && rank_of(order, p) < rank_of(order, c) by {
            assert(in_graph(graph, st.dom(), p));
        }
        assert(graph.contains(c.0) && graph.contains(c.1));
        lemma_enter_constraint(graph, order, st1, vx, c);
        let st2 = enter_all(st, vx, cs);
        assert forall|k: ConflictSetKey| #[trigger] st2.dom().contains(k) <==> st.dom().contains(k)
            || exists|j: int| 0 <= j < cs.len() && key_of(#[trigger] cs[j]) == k by {
            if st2.dom().contains(k) && !st.dom().contains(k) {
                if k == key_of(c) {
                    assert(key_of(cs[cs.len() - 1]) == k);
                } else {
                    assert(st1.dom().contains(k));
                    let j = choose|j: int| 0 <= j < cs0.len() && key_of(#[trigger] cs0[j]) == k;
                    assert(cs[j] == cs0[j]);
                }
            }
            if exists|j: int| 0 <= j < cs.len() && key_of(#[trigger] cs[j]) == k {
                let j = choose|j: int| 0 <= j < cs.len() && key_of(#[trigger] cs[j]) == k;
                if j < cs.len() - 1 {
                    assert(cs0[j] == cs[j]);
                    assert(st1.dom().contains(k));
                }
            }
        }
    }
}

/// Parent ordering constraints of a vertex, each once
pub open spec fn pcs_set(v: VertexView) -> Seq<Constraint> {
    seq_insert_all(Seq::empty(), constraint_seq(v.parents))
}

/// Conflict sets after a vertex `v` with hash `h` enters the graph (`vx` already knows it): each of
/// its parent constraints enters the constraint graph, then its unity constraint gets a fresh
/// conflict set, whose parents are the vertex's parent constraints, and enters the constraint graph
/// as well
pub open spec fn insert_states(
    st: Map<ConflictSetKey, ConflictSetView>,
    vx: Map<VertexHash, VertexView>,
    h: VertexHash,
    v: VertexView,
) -> Map<ConflictSetKey, ConflictSetView> {
    let uc = Constraint(h, h);
    let pcs = pcs_set(v);
    enter_constraint(enter_all(st, vx, pcs).insert(key_of(uc), new_cs_view(uc, pcs)), vx, uc)
}

/// The parents of a constraint between two vertices of the graph are in the constraint graph, and
/// rank lower
pub proof fn lemma_cparents_in_graph(
    vx: Map<VertexHash, VertexView>,
    graph: Set<VertexHash>,
    order: Map<VertexHash, nat>,
    next: nat,
    keys: Set<ConflictSetKey>,
    frontier: Set<VertexHash>,
    c: Constraint,
)
    requires
        inv_graph(vx, graph, order, next, frontier),
        inv_constraints(vx, graph, keys),
        graph.contains(c.0),
        graph.contains(c.1),
    ensures
        forall|p: Constraint| #[trigger]
            cparents_of(vx, c).contains(p) ==> in_graph(graph, keys, p) && rank_of(order, p)
                < rank_of(order, c),
{
    let s0 = seq_insert_all(Seq::<Constraint>::empty(), pcs_of(vx, c.0));
    lemma_seq_insert_all(Seq::<Constraint>::empty(), pcs_of(vx, c.0));
    lemma_seq_insert_all(s0, pcs_of(vx, c.1));
    assert forall|p: Constraint| #[trigger] cparents_of(vx, c).contains(p) implies in_graph(
        graph,
        keys,
        p,
    ) && rank_of(order, p) < rank_of(order, c) by {
        let a = if pcs_of(vx, c.0).contains(p) {
            c.0
        } else {
            c.1
        };
        assert(pcs_of(vx, a).contains(p));
        lemma_constraint_seq_vertices(vx[a].parents, p);
        assert(vx[a].parents.contains(p.0));
        assert(vx[a].parents.contains(p.1));
        assert(graph.contains(p.0) && order[p.0] < order[a]);
        assert(graph.contains(p.1) && order[p.1] < order[a]);
    }
}

/// Inserting a vertex whose parents are all in the graph keeps every conflict set well formed, and
/// gives each of its constraints a conflict set
pub proof fn lemma_insert_states(
    vx: Map<VertexHash, VertexView>,
    graph: Set<VertexHash>,
    order: Map<VertexHash, nat>,
    next: nat,
    st: Map<ConflictSetKey, ConflictSetView>,
    frontier: Set<VertexHash>,
    h: VertexHash,
    v: VertexView,
)
    requires
        inv_graph(vx, graph, order, next, frontier),
        inv_constraints(vx, graph, st.dom()),
        inv_states(graph, order, st),
        !graph.contains(h),
        forall|p: VertexHash| #[trigger] v.parents.contains(p) ==> graph.contains(p),
    ensures
        inv_states(
            graph.insert(h),
            order.insert(h, next),
            insert_states(st, vx.insert(h, v), h, v),
        ),
        st.dom().subset_of(insert_states(st, vx.insert(h, v), h, v).dom()),
        insert_states(st, vx.insert(h, v), h, v).dom().contains(key_of(Constraint(h, h))),
        forall|c: Constraint| #[trigger]
            pcs_set(v).contains(c) ==> insert_states(st, vx.insert(h, v), h, v).dom().contains(
                key_of(c),
            ),
{
    let vx2 = vx.insert(h, v);
    let graph2 = graph.insert(h);
    let order2 = order.insert(h, next);
    let uc = Constraint(h, h);
    let pcs = pcs_set(v);
    lemma_seq_insert_all(Seq::<Constraint>::empty(), constraint_seq(v.parents));
    assert forall|x: VertexHash| #[trigger] graph.contains(x) implies order2[x] == order[x] by {
        assert(x != h);
    }
    // The conflict sets so far stay well formed in the larger graph
    assert forall|k: ConflictSetKey| #[trigger] st.dom().contains(k) implies inv_cs(
        graph2,
        order2,
        st.dom(),
        k,
        st[k],
    ) by {
        lemma_inv_cs_extend(graph, order, st.dom(), graph2, order2, st.dom(), k, st[k]);
    }
    // Each parent constraint enters the constraint graph
    assert forall|j: int| #![trigger pcs[j]] 0 <= j < pcs.len() implies graph.contains(pcs[j].0)
        && graph.contains(pcs[j].1) by {
        assert(pcs.contains(pcs[j]));
        lemma_constraint_seq_vertices(v.parents, pcs[j]);
    }
    assert forall|j: int, p: Constraint|
        0 <= j < pcs.len() && #[trigger] cparents_of(vx2, pcs[j]).contains(p) implies in_graph(
        graph2,
        st.dom(),
        p,
    ) && rank_of(order2, p) < rank_of(order2, pcs[j]) by {
        let c = pcs[j];
        assert(graph.contains(c.0) && graph.contains(c.1));
        assert(vx2[c.0] == vx[c.0]);
        assert(vx2[c.1] == vx[c.1]);
        assert(cparents_of(vx2, c) == cparents_of(vx, c));
        lemma_cparents_in_graph(vx, graph, order, next, st.dom(), frontier, c);
    }
    lemma_enter_all(graph2, order2, st, vx2, pcs);
    let st1 = enter_all(st, vx2, pcs);
    // The unity constraint of the vertex gets a fresh conflict set
    let st2 = st1.insert(key_of(uc), new_cs_view(uc, pcs));
    assert forall|p: Constraint| #[trigger] pcs.contains(p) implies st1.dom().contains(key_of(p)) by {
        let j = choose|j: int| 0 <= j < pcs.len() && pcs[j] == p;
        assert(key_of(pcs[j]) == key_of(p));
    }
    assert forall|p: Constraint| #[trigger] pcs.contains(p) implies in_graph(graph2, st2.dom(), p)
        && rank_of(order2, p) < rank_of(order2, uc) by {
        let j = choose|j: int| 0 <= j < pcs.len() && pcs[j] == p;
        assert(graph.contains(pcs[j].0) && graph.contains(pcs[j].1));
        assert(order[p.0] < next && order[p.1] < next);
    }
    lemma_new_cs_inv(graph2, order2, st2.dom(), uc, pcs);
    assert forall|k: ConflictSetKey| #[trigger] st2.dom().contains(k) implies inv_cs(
        graph2,
        order2,
        st2.dom(),
        k,
        st2[k],
    ) by {
        if k != key_of(uc) {
            lemma_inv_cs_extend(graph2, order2, st1.dom(), graph2, order2, st2.dom(), k, st1[k]);
        }
    }
    // ... and enters the constraint graph, as a child of the vertex's parent constraints
    assert(pcs_of(vx2, h) == constraint_seq(v.parents));
    lemma_seq_insert_all(Seq::<Constraint>::empty(), pcs_of(vx2, h));
    lemma_seq_insert_all(pcs, pcs_of(vx2, h));
    assert forall|p: Constraint| #[trigger] cparents_of(vx2, uc).contains(p) implies in_graph(
        graph2,
        st2.dom(),
        p,
    ) && rank_of(order2, p) < rank_of(order2, uc) by {
        assert(pcs.contains(p));
    }
    lemma_enter_constraint(graph2, order2, st2, vx2, uc);
}

/// A vertex of the graph, known again with the parents it has, keeps the graph well formed
proof fn lemma_reinsert_graph(
    vx: Map<VertexHash, VertexView>,
    graph: Set<VertexHash>,
    order: Map<VertexHash, nat>,
    next: nat,
    frontier: Set<VertexHash>,
    h: VertexHash,
    v: VertexView,
)
    requires
        inv_graph(vx, graph, order, next, frontier),
        graph.contains(h),
        v.parents == vx[h].parents,
    ensures
        inv_graph(vx.insert(h, v), graph, order, next, frontier),
{
    let vx2 = vx.insert(h, v);
    assert forall|x: VertexHash, p: VertexHash|
        #![trigger graph.contains(x), vx2[x].parents.contains(p)]
        graph.contains(x) && vx2[x].parents.contains(p) implies graph.contains(p) && order[p]
        < order[x] by {
        if x == h {
            assert(vx[h].parents.contains(p));
        } else {
            assert(vx2[x] == vx[x]);
        }
    }
}

/// The parent constraints of a vertex of the graph, entering the constraint graph again, keep every
/// conflict set well formed
#[verifier::spinoff_prover]
proof fn lemma_reenter_pcs(
    vx: Map<VertexHash, VertexView>,
    graph: Set<VertexHash>,
    order: Map<VertexHash, nat>,
    next: nat,
    st: Map<ConflictSetKey, ConflictSetView>,
    frontier: Set<VertexHash>,
    h: VertexHash,
    v: VertexView,
)
    requires
        inv_graph(vx, graph, order, next, frontier),
        inv_constraints(vx, graph, st.dom()),
        inv_states(graph, order, st),
        forall|p: VertexHash| #[trigger] v.parents.contains(p) ==> graph.contains(p) && order[p] < order[h],
    ensures
        inv_states(graph, order, enter_all(st, vx.insert(h, v), pcs_set(v))),
        st.dom().subset_of(enter_all(st, vx.insert(h, v), pcs_set(v)).dom()),
        forall|p: Constraint| #[trigger]
            pcs_set(v).contains(p) ==> in_graph(graph, enter_all(st, vx.insert(h, v), pcs_set(v)).dom(), p)
                && rank_of(order, p) < rank_of(order, Constraint(h, h)),
{
    let vx2 = vx.insert(h, v);
    let pcs = pcs_set(v);
    lemma_seq_insert_all(Seq::<Constraint>::empty(), constraint_seq(v.parents));
    assert forall|j: int| #![trigger pcs[j]] 0 <= j < pcs.len() implies graph.contains(pcs[j].0)
        && graph.contains(pcs[j].1) && order[pcs[j].0] < order[h] && order[pcs[j].1] < order[h] by {
        assert(pcs.contains(pcs[j]));
        lemma_constraint_seq_vertices(v.parents, pcs[j]);
    }
    assert forall|j: int, p: Constraint|
        0 <= j < pcs.len() && #[trigger] cparents_of(vx2, pcs[j]).contains(p) implies in_graph(
        graph,
        st.dom(),
        p,
    ) && rank_of(order, p) < rank_of(order, pcs[j]) by {
        let c = pcs[j];
        assert(graph.contains(c.0) && graph.contains(c.1));
        assert(order[c.0] < order[h] && order[c.1] < order[h]);
        assert(vx2[c.0] == vx[c.0]);
        assert(vx2[c.1] == vx[c.1]);
        assert(cparents_of(vx2, c) == cparents_of(vx, c));
        lemma_cparents_in_graph(vx, graph, order, next, st.dom(), frontier, c);
    }
    lemma_enter_all(graph, order, st, vx2, pcs);
    let st1 = enter_all(st, vx2, pcs);
    assert forall|p: Constraint| #[trigger] pcs.contains(p) implies in_graph(graph, st1.dom(), p)
        && rank_of(order, p) < rank_of(order, Constraint(h, h)) by {
        let j = choose|j: int| 0 <= j < pcs.len() && pcs[j] == p;
        assert(graph.contains(pcs[j].0) && graph.contains(pcs[j].1));
        assert(key_of(pcs[j]) == key_of(p));
    }
}

/// The unity constraint of a vertex of the graph gets a fresh conflict set and enters the
/// constraint graph again, keeping every conflict set well formed
#[verifier::spinoff_prover]
proof fn lemma_reenter_unity(
    graph: Set<VertexHash>,
    order: Map<VertexHash, nat>,
    st1: Map<ConflictSetKey, ConflictSetView>,
    vx2: Map<VertexHash, VertexView>,
    h: VertexHash,
    v: VertexView,
)
    requires
        inv_states(graph, order, st1),
        graph.contains(h),
        vx2.dom().contains(h),
        vx2[h] == v,
        forall|p: Constraint| #[trigger]
            pcs_set(v).contains(p) ==> in_graph(graph, st1.dom(), p) && rank_of(order, p)
                < rank_of(order, Constraint(h, h)),
    ensures
        inv_states(
            graph,
            order,
            enter_constraint(
                st1.insert(key_of(Constraint(h, h)), new_cs_view(Constraint(h, h), pcs_set(v))),
                vx2,
                Constraint(h, h),
            ),
        ),
        st1.dom().subset_of(
            enter_constraint(
                st1.insert(key_of(Constraint(h, h)), new_cs_view(Constraint(h, h), pcs_set(v))),
                vx2,
                Constraint(h, h),
            ).dom(),
        ),
{
    let uc = Constraint(h, h);
    let pcs = pcs_set(v);
    let st2 = st1.insert(key_of(uc), new_cs_view(uc, pcs));
    assert forall|p: Constraint| #[trigger] pcs.contains(p) implies in_graph(graph, st2.dom(), p)
        && rank_of(order, p) < rank_of(order, uc) by {
        assert(in_graph(graph, st1.dom(), p));
    }
    lemma_new_cs_inv(graph, order, st2.dom(), uc, pcs);
    assert forall|k: ConflictSetKey| #[trigger] st2.dom().contains(k) implies inv_cs(
        graph,
        order,
        st2.dom(),
        k,
        st2[k],
    ) by {
        if k != key_of(uc) {
            lemma_inv_cs_extend(graph, order, st1.dom(), graph, order, st2.dom(), k, st1[k]);
        }
    }
    assert(pcs_of(vx2, h) == constraint_seq(v.parents));
    lemma_seq_insert_all(Seq::<Constraint>::empty(), pcs_of(vx2, h));
    lemma_seq_insert_all(pcs, pcs_of(vx2, h));
    assert forall|p: Constraint| #[trigger] cparents_of(vx2, uc).contains(p) implies in_graph(
        graph,
        st2.dom(),
        p,
    ) && rank_of(order, p) < rank_of(order, uc) by {
        assert(pcs.contains(p));
    }
    lemma_enter_constraint(graph, order, st2, vx2, uc);
}

/// Inserting again a vertex of the graph, with the parents it already has, keeps the invariant
#[verifier::spinoff_prover]
#[verifier::rlimit(40)]
pub proof fn lemma_reinsert_inv(
    vx: Map<VertexHash, VertexView>,
    graph: Set<VertexHash>,
    order: Map<VertexHash, nat>,
    next: nat,
    st: Map<ConflictSetKey, ConflictSetView>,
    frontier: Set<VertexHash>,
    h: VertexHash,
    v: VertexView,
)
    requires
        dag_inv(vx, graph, order, next, st, frontier),
        graph.contains(h),
        v.parents == vx[h].parents,
    ensures
        dag_inv(vx.insert(h, v), graph, order, next, insert_states(st, vx.insert(h, v), h, v), frontier),
        st.dom().subset_of(insert_states(st, vx.insert(h, v), h, v).dom()),
{
    reveal(dag_inv);
    let vx2 = vx.insert(h, v);
    assert forall|p: VertexHash| #[trigger] v.parents.contains(p) implies graph.contains(p) && order[p] < order[h] by {
        assert(vx[h].parents.contains(p));
    }
    lemma_reinsert_graph(vx, graph, order, next, frontier, h, v);
    lemma_reenter_pcs(vx, graph, order, next, st, frontier, h, v);
    let st1 = enter_all(st, vx2, pcs_set(v));
    lemma_reenter_unity(graph, order, st1, vx2, h, v);
    let st3 = insert_states(st, vx2, h, v);
    lemma_reinsert_constraints(vx, graph, st.dom(), st3.dom(), h, v);
}

/// A vertex of the graph, known again with the parents it has, keeps a conflict set for every
/// constraint of a vertex in the graph
proof fn lemma_reinsert_constraints(
    vx: Map<VertexHash, VertexView>,
    graph: Set<VertexHash>,
    keys: Set<ConflictSetKey>,
    keys2: Set<ConflictSetKey>,
    h: VertexHash,
    v: VertexView,
)
    requires
        inv_constraints(vx, graph, keys),
        keys.subset_of(keys2),
        v.parents == vx[h].parents,
    ensures
        inv_constraints(vx.insert(h, v), graph, keys2),
{
    let vx2 = vx.insert(h, v);
    assert forall|x: VertexHash, c: Constraint|
        #![trigger graph.contains(x), pcs_of(vx2, x).contains(c)]
        graph.contains(x) && pcs_of(vx2, x).contains(c) implies keys2.contains(key_of(c)) by {
        if x == h {
            assert(vx2[x].parents == vx[x].parents);
        } else {
            assert(vx2[x] == vx[x]);
        }
        assert(pcs_of(vx, x).contains(c));
    }
}

/// Inserting a vertex whose parents are all in the graph keeps the graph well formed
proof fn lemma_insert_graph(
    vx: Map<VertexHash, VertexView>,
    graph: Set<VertexHash>,
    order: Map<VertexHash, nat>,
    next: nat,
    frontier: Set<VertexHash>,
    h: VertexHash,
    v: VertexView,
)
    requires
        inv_graph(vx, graph, order, next, frontier),
        !graph.contains(h),
        forall|p: VertexHash| #[trigger] v.parents.contains(p) ==> graph.contains(p),
    ensures
        inv_graph(vx.insert(h, v), graph.insert(h), order.insert(h, next), next + 1, frontier),
{
    let vx2 = vx.insert(h, v);
    let graph2 = graph.insert(h);
    let order2 = order.insert(h, next);
    assert forall|x: VertexHash, p: VertexHash|
        #![trigger graph2.contains(x), vx2[x].parents.contains(p)]
        graph2.contains(x) && vx2[x].parents.contains(p) implies graph2.contains(p) && order2[p]
        < order2[x] by {
        if x == h {
            assert(graph.contains(p));
        } else {
            assert(vx2[x] == vx[x]);
            assert(graph.contains(x) && vx[x].parents.contains(p));
        }
    }
}

/// After a vertex enters the graph, every constraint of a vertex in the graph has a conflict set
proof fn lemma_insert_constraints(
    vx: Map<VertexHash, VertexView>,
    graph: Set<VertexHash>,
    keys: Set<ConflictSetKey>,
    keys2: Set<ConflictSetKey>,
    h: VertexHash,
    v: VertexView,
)
    requires
        inv_constraints(vx, graph, keys),
        !graph.contains(h),
        keys.subset_of(keys2),
        keys2.contains(key_of(Constraint(h, h))),
        forall|c: Constraint| #[trigger] pcs_set(v).contains(c) ==> keys2.contains(key_of(c)),
    ensures
        inv_constraints(vx.insert(h, v), graph.insert(h), keys2),
{
    let vx2 = vx.insert(h, v);
    let graph2 = graph.insert(h);
    lemma_seq_insert_all(Seq::<Constraint>::empty(), constraint_seq(v.parents));
    assert forall|x: VertexHash, c: Constraint|
        #![trigger graph2.contains(x), pcs_of(vx2, x).contains(c)]
        graph2.contains(x) && pcs_of(vx2, x).contains(c) implies keys2.contains(key_of(c)) by {
        if x == h {
            assert(pcs_set(v).contains(c));
        } else {
            assert(vx2[x] == vx[x]);
            assert(graph.contains(x) && pcs_of(vx, x).contains(c));
        }
    }
    assert forall|x: VertexHash| #[trigger] graph2.contains(x) implies keys2.contains(
        key_of(Constraint(x, x)),
    ) by {
        if x != h {
            assert(graph.contains(x));
        }
    }
}

/// Inserting a vertex whose parents are all in the graph keeps the invariant
pub proof fn lemma_insert_inv(
    vx: Map<VertexHash, VertexView>,
    graph: Set<VertexHash>,
    order: Map<VertexHash, nat>,
    next: nat,
    st: Map<ConflictSetKey, ConflictSetView>,
    frontier: Set<VertexHash>,
    h: VertexHash,
    v: VertexView,
)
    requires
        dag_inv(vx, graph, order, next, st, frontier),
        !graph.contains(h),
        forall|p: VertexHash| #[trigger] v.parents.contains(p) ==> graph.contains(p),
    ensures
        dag_inv(
            vx.insert(h, v),
            graph.insert(h),
            order.insert(h, next),
            next + 1,
            insert_states(st, vx.insert(h, v), h, v),
            frontier,
        ),
        st.dom().subset_of(insert_states(st, vx.insert(h, v), h, v).dom()),
{
    reveal(dag_inv);
    lemma_insert_states(vx, graph, order, next, st, frontier, h, v);
    let st3 = insert_states(st, vx.insert(h, v), h, v);
    lemma_insert_constraints(vx, graph, st.dom(), st3.dom(), h, v);
    lemma_insert_graph(vx, graph, order, next, frontier, h, v);
}

/// Learning of a vertex outside the graph keeps the invariant
pub proof fn lemma_learn_inv(
    vx: Map<VertexHash, VertexView>,
    graph: Set<VertexHash>,
    order: Map<VertexHash, nat>,
    next: nat,
    st: Map<ConflictSetKey, ConflictSetView>,
    frontier: Set<VertexHash>,
    h: VertexHash,
    v: VertexView,
)
    requires
        dag_inv(vx, graph, order, next, st, frontier),
        !graph.contains(h),
    ensures
        dag_inv(vx.insert(h, v), graph, order, next, st, frontier),
{
    reveal(dag_inv);
    lemma_learn_graph(vx, graph, order, next, frontier, h, v);
    lemma_learn_constraints(vx, graph, st.dom(), h, v);
}

proof fn lemma_learn_graph(
    vx: Map<VertexHash, VertexView>,
    graph: Set<VertexHash>,
    order: Map<VertexHash, nat>,
    next: nat,
    frontier: Set<VertexHash>,
    h: VertexHash,
    v: VertexView,
)
    requires
        inv_graph(vx, graph, order, next, frontier),
        !graph.contains(h),
    ensures
        inv_graph(vx.insert(h, v), graph, order, next, frontier),
{
    let vx2 = vx.insert(h, v);
    assert forall|x: VertexHash, p: VertexHash|
        #![trigger graph.contains(x), vx2[x].parents.contains(p)]
        graph.contains(x) && vx2[x].parents.contains(p) implies graph.contains(p) && order[p]
        < order[x] by {
        assert(vx2[x] == vx[x]);
    }
}

proof fn lemma_learn_constraints(
    vx: Map<VertexHash, VertexView>,
    graph: Set<VertexHash>,
    keys: Set<ConflictSetKey>,
    h: VertexHash,
    v: VertexView,
)
    requires
        inv_constraints(vx, graph, keys),
        !graph.contains(h),
        forall|x: VertexHash| #[trigger] graph.contains(x) ==> vx.dom().contains(x),
    ensures
        inv_constraints(vx.insert(h, v), graph, keys),
{
    let vx2 = vx.insert(h, v);
    assert forall|x: VertexHash, c: Constraint|
        #![trigger graph.contains(x), pcs_of(vx2, x).contains(c)]
        graph.contains(x) && pcs_of(vx2, x).contains(c) implies keys.contains(key_of(c)) by {
        assert(vx2[x] == vx[x]);
        assert(pcs_of(vx, x).contains(c));
    }
}

/// Conflict sets after recording decision `d` for constraint `c`
pub open spec fn decide(st: Map<ConflictSetKey, ConflictSetView>, c: Constraint, d: bool) -> Map<
    ConflictSetKey,
    ConflictSetView,
> {
    if st.dom().contains(key_of(c)) {
        st.insert(
            key_of(c),
            ConflictSetView { decision: st[key_of(c)].decision.insert(c, d), ..st[key_of(c)] },
        )
    } else {
        st
    }
}

/// Conflict sets after accepting each of `cs`, in order
pub open spec fn accept_all(st: Map<ConflictSetKey, ConflictSetView>, cs: Seq<Constraint>) -> Map<
    ConflictSetKey,
    ConflictSetView,
>
    decreases cs.len(),
{
    if cs.len() == 0 {
        st
    } else {
        decide(accept_all(st, cs.drop_last()), cs.last(), true)
    }
}

/// Recording a decision keeps every conflict set well formed
proof fn lemma_decide_states(
    graph: Set<VertexHash>,
    order: Map<VertexHash, nat>,
    st: Map<ConflictSetKey, ConflictSetView>,
    c: Constraint,
    d: bool,
)
    requires
        inv_states(graph, order, st),
    ensures
        inv_states(graph, order, decide(st, c, d)),
        decide(st, c, d).dom() == st.dom(),
{
    let st2 = decide(st, c, d);
    assert(st2.dom() =~= st.dom());
    if st.dom().contains(key_of(c)) {
        let k = key_of(c);
        assert(inv_cs(graph, order, st.dom(), k, st[k]));
        assert(inv_cs(graph, order, st2.dom(), k, st2[k]));
    }
}

/// Recording a decision keeps the invariant
pub proof fn lemma_decide_inv(
    vx: Map<VertexHash, VertexView>,
    graph: Set<VertexHash>,
    order: Map<VertexHash, nat>,
    next: nat,
    st: Map<ConflictSetKey, ConflictSetView>,
    frontier: Set<VertexHash>,
    c: Constraint,
    d: bool,
)
    requires
        dag_inv(vx, graph, order, next, st, frontier),
    ensures
        dag_inv(vx, graph, order, next, decide(st, c, d), frontier),
        decide(st, c, d).dom() == st.dom(),
{
    reveal(dag_inv);
    lemma_decide_states(graph, order, st, c, d);
}

/// The walk over ancestors goes on past `c` until its conflict set accepts it: its counter has not
/// reached `max_count` or, for a unity constraint (which has no conflict), its confidence has not
/// reached `max_conf` ("safe early commitment")
pub open spec fn undecided(cs: ConflictSetView, c: Constraint, max_count: usize, max_conf: usize) -> bool {
    cs.count[c] < max_count || (spec_is_unity(c) && cs.confidence[c] < max_conf)
}

/// Ancestors of `c` found by walking up the constraint graph for at most `fuel` steps: each parent
/// of an undecided constraint, followed by its own ancestors (a constraint may come more than once)
pub open spec fn walk(
    st: Map<ConflictSetKey, ConflictSetView>,
    max_count: usize,
    max_conf: usize,
    fuel: nat,
    c: Constraint,
) -> Seq<Constraint>
    decreases fuel, 0nat,
{
    if fuel == 0 {
        Seq::empty()
    } else {
        let cs = st[key_of(c)];
        if undecided(cs, c, max_count, max_conf) {
            walk_list(st, max_count, max_conf, (fuel - 1) as nat, cs.parents[c])
        } else {
            Seq::empty()
        }
    }
}

/// Each of `ps`, followed by its ancestors, in order
pub open spec fn walk_list(
    st: Map<ConflictSetKey, ConflictSetView>,
    max_count: usize,
    max_conf: usize,
    fuel: nat,
    ps: Seq<Constraint>,
) -> Seq<Constraint>
    decreases fuel, ps.len() + 1,
{
    if ps.len() == 0 {
        Seq::empty()
    } else {
        walk_list(st, max_count, max_conf, fuel, ps.drop_last()) + seq![ps.last()] + walk(
            st,
            max_count,
            max_conf,
            fuel,
            ps.last(),
        )
    }
}

/// Constraints in the progeny of `c` (itself included) that hold a chit, found by walking down the
/// constraint graph for at most `fuel` steps (a constraint may come more than once)
pub open spec fn progeny_chits(st: Map<ConflictSetKey, ConflictSetView>, fuel: nat, c: Constraint) -> Seq<
    Constraint,
>
    decreases fuel, 0nat,
{
    if fuel == 0 {
        Seq::empty()
    } else {
        let cs = st[key_of(c)];
        let below = progeny_list(st, (fuel - 1) as nat, cs.children[c]);
        if cs.chit[c] {
            below.push(c)
        } else {
            below
        }
    }
}

/// The chits in the progeny of each of `ds`, in order
pub open spec fn progeny_list(st: Map<ConflictSetKey, ConflictSetView>, fuel: nat, ds: Seq<Constraint>) -> Seq<
    Constraint,
>
    decreases fuel, ds.len() + 1,
{
    if ds.len() == 0 {
        Seq::empty()
    } else {
        progeny_list(st, fuel, ds.drop_last()) + progeny_chits(st, fuel, ds.last())
    }
}

/// Facts about the conflict set of a constraint: it has an entry for the constraint, whose parents
/// rank lower and children higher, all in the constraint graph, and every rank is below twice the
/// number of vertices in the graph
pub proof fn lemma_cs_facts(
    vx: Map<VertexHash, VertexView>,
    graph: Set<VertexHash>,
    order: Map<VertexHash, nat>,
    next: nat,
    st: Map<ConflictSetKey, ConflictSetView>,
    frontier: Set<VertexHash>,
    c: Constraint,
)
    requires
        dag_inv(vx, graph, order, next, st, frontier),
        st.dom().contains(key_of(c)),
    ensures
        st[key_of(c)].chit.dom().contains(c),
        st[key_of(c)].confidence.dom().contains(c),
        st[key_of(c)].count.dom().contains(c),
        st[key_of(c)].parents.dom().contains(c),
        st[key_of(c)].children.dom().contains(c),
        key_of(st[key_of(c)].preferred) == key_of(c),
        key_of(st[key_of(c)].last) == key_of(c),
        forall|d: Constraint| #[trigger]
            st[key_of(c)].decision.dom().contains(d) ==> key_of(d) == key_of(c),
        0 <= rank_of(order, c) < 2 * next,
        forall|p: Constraint| #[trigger]
            st[key_of(c)].parents[c].contains(p) ==> st.dom().contains(key_of(p)) && rank_of(
                order,
                p,
            ) < rank_of(order, c),
        forall|d: Constraint| #[trigger]
            st[key_of(c)].children[c].contains(d) ==> st.dom().contains(key_of(d)) && rank_of(
                order,
                c,
            ) < rank_of(order, d) < 2 * next,
        inv_states(graph, order, st),
{
    reveal(dag_inv);
    lemma_cs_facts_states(graph, order, next, st, c);
}

proof fn lemma_cs_facts_states(
    graph: Set<VertexHash>,
    order: Map<VertexHash, nat>,
    next: nat,
    st: Map<ConflictSetKey, ConflictSetView>,
    c: Constraint,
)
    requires
        inv_states(graph, order, st),
        forall|h: VertexHash| #[trigger] graph.contains(h) ==> order[h] < next,
        st.dom().contains(key_of(c)),
    ensures
        st[key_of(c)].chit.dom().contains(c),
        st[key_of(c)].confidence.dom().contains(c),
        st[key_of(c)].count.dom().contains(c),
        st[key_of(c)].parents.dom().contains(c),
        st[key_of(c)].children.dom().contains(c),
        key_of(st[key_of(c)].preferred) == key_of(c),
        key_of(st[key_of(c)].last) == key_of(c),
        forall|d: Constraint| #[trigger]
            st[key_of(c)].decision.dom().contains(d) ==> key_of(d) == key_of(c),
        0 <= rank_of(order, c) < 2 * next,
        forall|p: Constraint| #[trigger]
            st[key_of(c)].parents[c].contains(p) ==> st.dom().contains(key_of(p)) && rank_of(
                order,
                p,
            ) < rank_of(order, c),
        forall|d: Constraint| #[trigger]
            st[key_of(c)].children[c].contains(d) ==> st.dom().contains(key_of(d)) && rank_of(
                order,
                c,
            ) < rank_of(order, d) < 2 * next,
{
    let k = key_of(c);
    assert(inv_cs(graph, order, st.dom(), k, st[k]));
    assert(graph.contains(c.0) && graph.contains(c.1));
    assert(order[c.0] < next && order[c.1] < next);
    assert forall|d: Constraint| #[trigger] st[key_of(c)].children[c].contains(d) implies st.dom().contains(
        key_of(d),
    ) && rank_of(order, c) < rank_of(order, d) < 2 * next by {
        assert(in_graph(graph, st.dom(), d));
        assert(order[d.0] < next && order[d.1] < next);
    }
}

/// Every constraint found walking up from a constraint with a conflict set has a conflict set
pub proof fn lemma_walk_keys(
    graph: Set<VertexHash>,
    order: Map<VertexHash, nat>,
    st: Map<ConflictSetKey, ConflictSetView>,
    max_count: usize,
    max_conf: usize,
    fuel: nat,
    c: Constraint,
)
    requires
        inv_states(graph, order, st),
        st.dom().contains(key_of(c)),
    ensures
        forall|x: Constraint| #[trigger]
            walk(st, max_count, max_conf, fuel, c).contains(x) ==> st.dom().contains(key_of(x)),
    decreases fuel, 0nat,
{
    if fuel > 0 {
        let cs = st[key_of(c)];
        if undecided(cs, c, max_count, max_conf) {
            assert(inv_cs(graph, order, st.dom(), key_of(c), cs));
            assert forall|p: Constraint| #[trigger] cs.parents[c].contains(p) implies st.dom().contains(
                key_of(p),
            ) by {
                assert(in_graph(graph, st.dom(), p));
            }
            lemma_walk_list_keys(graph, order, st, max_count, max_conf, (fuel - 1) as nat, cs.parents[c]);
            assert(walk(st, max_count, max_conf, fuel, c) == walk_list(
                st,
                max_count,
                max_conf,
                (fuel - 1) as nat,
                cs.parents[c],
            ));
        } else {
            assert(walk(st, max_count, max_conf, fuel, c) =~= Seq::<Constraint>::empty());
        }
    } else {
        assert(walk(st, max_count, max_conf, fuel, c) =~= Seq::<Constraint>::empty());
    }
}

/// Every constraint found walking up from constraints with conflict sets has a conflict set
pub proof fn lemma_walk_list_keys(
    graph: Set<VertexHash>,
    order: Map<VertexHash, nat>,
    st: Map<ConflictSetKey, ConflictSetView>,
    max_count: usize,
    max_conf: usize,
    fuel: nat,
    ps: Seq<Constraint>,
)
    requires
        inv_states(graph, order, st),
        forall|p: Constraint| #[trigger] ps.contains(p) ==> st.dom().contains(key_of(p)),
    ensures
        forall|x: Constraint| #[trigger]
            walk_list(st, max_count, max_conf, fuel, ps).contains(x) ==> st.dom().contains(
                key_of(x),
            ),
    decreases fuel, ps.len() + 1,
{
    if ps.len() > 0 {
        let ps0 = ps.drop_last();
        assert forall|p: Constraint| #[trigger] ps0.contains(p) implies st.dom().contains(key_of(p)) by {
            let i = choose|i: int| 0 <= i < ps0.len() && ps0[i] == p;
            assert(ps[i] == p);
            assert(ps.contains(p));
        }
        lemma_walk_list_keys(graph, order, st, max_count, max_conf, fuel, ps0);
        assert(ps.contains(ps[ps.len() - 1]));
        lemma_walk_keys(graph, order, st, max_count, max_conf, fuel, ps.last());
        let a = walk_list(st, max_count, max_conf, fuel, ps0);
        let b = walk(st, max_count, max_conf, fuel, ps.last());
        assert forall|x: Constraint| #[trigger] (a + seq![ps.last()] + b).contains(x) implies st.dom().contains(
            key_of(x),
        ) by {
            let s = a + seq![ps.last()] + b;
            let i = choose|i: int| 0 <= i < s.len() && s[i] == x;
            if i < a.len() {
                assert(a[i] == x);
                assert(a.contains(x));
            } else if i == a.len() {
            } else {
                assert(b[i - a.len() - 1] == x);
                assert(b.contains(x));
            }
        }
    }
}

/// Walking up from `c` with enough fuel finds every parent of an undecided `c`, and every parent of
/// each undecided constraint it finds
pub proof fn lemma_walk_closed(
    graph: Set<VertexHash>,
    order: Map<VertexHash, nat>,
    st: Map<ConflictSetKey, ConflictSetView>,
    max_count: usize,
    max_conf: usize,
    fuel: nat,
    c: Constraint,
)
    requires
        inv_states(graph, order, st),
        st.dom().contains(key_of(c)),
        fuel > rank_of(order, c),
    ensures
        undecided(st[key_of(c)], c, max_count, max_conf) ==> forall|p: Constraint| #[trigger]
            st[key_of(c)].parents[c].contains(p) ==> walk(st, max_count, max_conf, fuel, c).contains(p),
        forall|x: Constraint, p: Constraint|
            #![trigger walk(st, max_count, max_conf, fuel, c).contains(x), st[key_of(x)].parents[x].contains(p)]
            walk(st, max_count, max_conf, fuel, c).contains(x) && undecided(
                st[key_of(x)],
                x,
                max_count,
                max_conf,
            ) && st[key_of(x)].parents[x].contains(p) ==> walk(st, max_count, max_conf, fuel, c).contains(p),
    decreases fuel, 0nat,
{
    let cs = st[key_of(c)];
    if undecided(cs, c, max_count, max_conf) {
        assert(inv_cs(graph, order, st.dom(), key_of(c), cs));
        assert(cs.parents.dom().contains(c));
        let ps = cs.parents[c];
        assert forall|p: Constraint| #[trigger] ps.contains(p) implies st.dom().contains(key_of(p))
            && (fuel - 1) as nat > rank_of(order, p) by {
            assert(in_graph(graph, st.dom(), p));
        }
        lemma_walk_list_closed(graph, order, st, max_count, max_conf, (fuel - 1) as nat, ps);
        assert(walk(st, max_count, max_conf, fuel, c) == walk_list(
            st,
            max_count,
            max_conf,
            (fuel - 1) as nat,
            ps,
        ));
    } else {
        assert(walk(st, max_count, max_conf, fuel, c) =~= Seq::<Constraint>::empty());
    }
}

/// Walking up from each of `ps` with enough fuel finds each of them, and every parent of each
/// undecided constraint it finds
pub proof fn lemma_walk_list_closed(
    graph: Set<VertexHash>,
    order: Map<VertexHash, nat>,
    st: Map<ConflictSetKey, ConflictSetView>,
    max_count: usize,
    max_conf: usize,
    fuel: nat,
    ps: Seq<Constraint>,
)
    requires
        inv_states(graph, order, st),
        forall|p: Constraint| #[trigger]
            ps.contains(p) ==> st.dom().contains(key_of(p)) && fuel > rank_of(order, p),
    ensures
        forall|p: Constraint| #[trigger]
            ps.contains(p) ==> walk_list(st, max_count, max_conf, fuel, ps).contains(p),
        forall|x: Constraint, p: Constraint|
            #![trigger walk_list(st, max_count, max_conf, fuel, ps).contains(x), st[key_of(x)].parents[x].contains(p)]
            walk_list(st, max_count, max_conf, fuel, ps).contains(x) && undecided(
                st[key_of(x)],
                x,
                max_count,
                max_conf,
            ) && st[key_of(x)].parents[x].contains(p) ==> walk_list(st, max_count, max_conf, fuel, ps).contains(p),
    decreases fuel, ps.len() + 1,
{
    if ps.len() > 0 {
        let ps0 = ps.drop_last();
        let l = ps.last();
        assert forall|p: Constraint| #[trigger] ps0.contains(p) implies st.dom().contains(key_of(p))
            && fuel > rank_of(order, p) by {
            let i = choose|i: int| 0 <= i < ps0.len() && ps0[i] == p;
            assert(ps[i] == p);
            assert(ps.contains(p));
        }
        lemma_walk_list_closed(graph, order, st, max_count, max_conf, fuel, ps0);
        assert(ps.contains(ps[ps.len() - 1]));
        lemma_walk_closed(graph, order, st, max_count, max_conf, fuel, l);
        let a = walk_list(st, max_count, max_conf, fuel, ps0);
        let b = walk(st, max_count, max_conf, fuel, l);
        let s = a + seq![l] + b;
        assert(walk_list(st, max_count, max_conf, fuel, ps) == s);
        assert forall|y: Constraint| a.contains(y) implies #[trigger] s.contains(y) by {
            let i = choose|i: int| 0 <= i < a.len() && a[i] == y;
            assert(s[i] == y);
        }
        assert forall|y: Constraint| b.contains(y) implies #[trigger] s.contains(y) by {
            let i = choose|i: int| 0 <= i < b.len() && b[i] == y;
            assert(s[a.len() + 1 + i] == y);
        }
        assert(s[a.len() as int] == l);
        assert forall|p: Constraint| #[trigger] ps.contains(p) implies s.contains(p) by {
            let i = choose|i: int| 0 <= i < ps.len() && ps[i] == p;
            if i < ps.len() - 1 {
                assert(ps0[i] == p);
                assert(ps0.contains(p));
                assert(a.contains(p));
            }
        }
        assert forall|x: Constraint, p: Constraint|
            s.contains(x) && undecided(st[key_of(x)], x, max_count, max_conf)
                && #[trigger] st[key_of(x)].parents[x].contains(p) implies s.contains(p) by {
            let i = choose|i: int| 0 <= i < s.len() && s[i] == x;
            if i < a.len() {
                assert(a[i] == x);
                assert(a.contains(x));
                assert(a.contains(p));
            } else if i == a.len() {
                assert(x == l);
                assert(b.contains(p));
            } else {
                assert(b[i - a.len() - 1] == x);
                assert(b.contains(x));
                assert(b.contains(p));
            }
        }
    }
}

/// Updating the conflict set at `k` keeps the invariant when the new set keeps the parents, the
/// children and the entries of the old one, and records decisions, preference and last vote only
/// for constraints of its key
pub proof fn lemma_update_cs_inv(
    vx: Map<VertexHash, VertexView>,
    graph: Set<VertexHash>,
    order: Map<VertexHash, nat>,
    next: nat,
    st: Map<ConflictSetKey, ConflictSetView>,
    frontier: Set<VertexHash>,
    k: ConflictSetKey,
    cs2: ConflictSetView,
)
    requires
        dag_inv(vx, graph, order, next, st, frontier),
        st.dom().contains(k),
        cs2.parents == st[k].parents,
        cs2.children == st[k].children,
        cs2.chit.dom() == st[k].chit.dom(),
        cs2.confidence.dom() == st[k].confidence.dom(),
        cs2.count.dom() == st[k].count.dom(),
        forall|c: Constraint| #[trigger] cs2.decision.dom().contains(c) ==> key_of(c) == k,
        key_of(cs2.preferred) == k,
        key_of(cs2.last) == k,
    ensures
        dag_inv(vx, graph, order, next, st.insert(k, cs2), frontier),
        st.insert(k, cs2).dom() == st.dom(),
{
    reveal(dag_inv);
    lemma_update_cs_states(graph, order, st, k, cs2);
}

proof fn lemma_update_cs_states(
    graph: Set<VertexHash>,
    order: Map<VertexHash, nat>,
    st: Map<ConflictSetKey, ConflictSetView>,
    k: ConflictSetKey,
    cs2: ConflictSetView,
)
    requires
        inv_states(graph, order, st),
        st.dom().contains(k),
        cs2.parents == st[k].parents,
        cs2.children == st[k].children,
        cs2.chit.dom() == st[k].chit.dom(),
        cs2.confidence.dom() == st[k].confidence.dom(),
        cs2.count.dom() == st[k].count.dom(),
        forall|c: Constraint| #[trigger] cs2.decision.dom().contains(c) ==> key_of(c) == k,
        key_of(cs2.preferred) == k,
        key_of(cs2.last) == k,
    ensures
        inv_states(graph, order, st.insert(k, cs2)),
        st.insert(k, cs2).dom() == st.dom(),
{
    let st2 = st.insert(k, cs2);
    assert(st2.dom() =~= st.dom());
    assert(inv_cs(graph, order, st.dom(), k, st[k]));
    assert(inv_cs(graph, order, st2.dom(), k, cs2));
}

/// Constraint `u` has a conflict set, and is accepted there
pub open spec fn accepted_in(st: Map<ConflictSetKey, ConflictSetView>, u: Constraint) -> bool {
    &&& st.dom().contains(key_of(u))
    &&& st[key_of(u)].decision.dom().contains(u)
    &&& st[key_of(u)].decision[u]
}

/// Registering children never changes which conflict sets there are, nor any decision
pub proof fn lemma_register_all_keeps(
    st: Map<ConflictSetKey, ConflictSetView>,
    ps: Seq<Constraint>,
    c: Constraint,
    u: Constraint,
)
    ensures
        register_all(st, ps, c).dom() == st.dom(),
        accepted_in(st, u) ==> accepted_in(register_all(st, ps, c), u),
    decreases ps.len(),
{
    if ps.len() > 0 {
        lemma_register_all_keeps(st, ps.drop_last(), c, u);
        let st1 = register_all(st, ps.drop_last(), c);
        assert(register_child(st1, ps.last(), c).dom() =~= st1.dom());
    }
}

/// Constraints entering the constraint graph never remove a conflict set, nor any decision
pub proof fn lemma_enter_all_keeps(
    st: Map<ConflictSetKey, ConflictSetView>,
    vx: Map<VertexHash, VertexView>,
    cs: Seq<Constraint>,
    u: Constraint,
)
    ensures
        st.dom().subset_of(enter_all(st, vx, cs).dom()),
        accepted_in(st, u) ==> accepted_in(enter_all(st, vx, cs), u),
    decreases cs.len(),
{
    if cs.len() > 0 {
        lemma_enter_all_keeps(st, vx, cs.drop_last(), u);
        let st1 = enter_all(st, vx, cs.drop_last());
        lemma_enter_constraint_keeps(st1, vx, cs.last(), u);
    }
}

/// A constraint entering the constraint graph never removes a conflict set, nor any decision, and
/// its key gets a conflict set
pub proof fn lemma_enter_constraint_keeps(
    st: Map<ConflictSetKey, ConflictSetView>,
    vx: Map<VertexHash, VertexView>,
    c: Constraint,
    u: Constraint,
)
    ensures
        st.dom().subset_of(enter_constraint(st, vx, c).dom()),
        enter_constraint(st, vx, c).dom().contains(key_of(c)),
        accepted_in(st, u) ==> accepted_in(enter_constraint(st, vx, c), u),
{
    lemma_register_all_keeps(st, cparents_of(vx, c), c, u);
}

/// Recording decisions never removes a conflict set, nor an acceptance
pub proof fn lemma_accept_all_keeps(
    st: Map<ConflictSetKey, ConflictSetView>,
    cs: Seq<Constraint>,
    u: Constraint,
)
    ensures
        accept_all(st, cs).dom() == st.dom(),
        accepted_in(st, u) ==> accepted_in(accept_all(st, cs), u),
    decreases cs.len(),
{
    if cs.len() > 0 {
        lemma_accept_all_keeps(st, cs.drop_last(), u);
        let st1 = accept_all(st, cs.drop_last());
        assert(decide(st1, cs.last(), true).dom() =~= st1.dom());
    }
}

/// A vertex `v` with hash `h` entering the graph never removes a conflict set, nor the acceptance
/// of a constraint outside the conflict set of its unity constraint; that conflict set exists
/// afterwards
pub proof fn lemma_insert_states_keeps(
    st: Map<ConflictSetKey, ConflictSetView>,
    vx: Map<VertexHash, VertexView>,
    h: VertexHash,
    v: VertexView,
    u: Constraint,
)
    ensures
        st.dom().subset_of(insert_states(st, vx, h, v).dom()),
        insert_states(st, vx, h, v).dom().contains(key_of(Constraint(h, h))),
        key_of(u) != key_of(Constraint(h, h)) && accepted_in(st, u) ==> accepted_in(
            insert_states(st, vx, h, v),
            u,
        ),
{
    let uc = Constraint(h, h);
    let pcs = pcs_set(v);
    lemma_enter_all_keeps(st, vx, pcs, u);
    let st1 = enter_all(st, vx, pcs);
    let st2 = st1.insert(key_of(uc), new_cs_view(uc, pcs));
    lemma_enter_constraint_keeps(st2, vx, uc, u);
}

} // verus!
