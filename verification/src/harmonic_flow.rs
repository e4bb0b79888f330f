use vstd::prelude::*;

use crate::belief_network::{false_row, ring_edges};
use crate::simplicial::Edge;

verus! {

/// The elements of `s` are strictly increasing.
pub open spec fn increasing(s: Seq<usize>) -> bool {
    forall|i: int, j: int| 0 <= i < j < s.len() ==> #[trigger] s[i] < #[trigger] s[j]
}

/// `s` and `t` hold the same elements.
pub open spec fn same_members(s: Seq<usize>, t: Seq<usize>) -> bool {
    forall|x: usize|
        #![trigger s.contains(x)]
        #![trigger t.contains(x)]
        s.contains(x) <==> t.contains(x)
}

/// Number of `false` entries of `s`.
spec fn count_false(s: Seq<bool>) -> nat
    decreases s.len(),
{
    if s.len() == 0 {
        0
    } else {
        count_false(s.drop_last()) + if s.last() {
            0nat
        } else {
            1nat
        }
    }
}

proof fn lemma_count_false_set(s: Seq<bool>, i: int)
    requires
        0 <= i < s.len(),
        !s[i],
    ensures
        count_false(s.update(i, true)) + 1 == count_false(s),
    decreases s.len(),
{
    let t = s.update(i, true);
    if i == s.len() - 1 {
        assert(t.drop_last() =~= s.drop_last());
    } else {
        lemma_count_false_set(s.drop_last(), i);
        assert(t.drop_last() =~= s.drop_last().update(i, true));
    }
}

fn vec_contains(v: &Vec<usize>, x: usize) -> (b: bool)
    ensures
        b == v@.contains(x),
{
    let mut i: usize = 0;
    while i < v.len()
        invariant
            i <= v.len(),
            forall|j: int| 0 <= j < i ==> v@[j] != x,
        decreases v.len() - i,
    {
        if v[i] == x {
            return true;
        }
        i += 1;
    }
    false
}

/// The elements of `v` in increasing order, each once.
fn sorted_distinct(v: &Vec<usize>) -> (r: Vec<usize>)
    ensures
        increasing(r@),
        same_members(r@, v@),
{
    let mut r: Vec<usize> = Vec::new();
    let mut i: usize = 0;
    while i < v.len()
        invariant
            i <= v.len(),
            increasing(r@),
            forall|x: usize| r@.contains(x) <==> exists|j: int| 0 <= j < i && v@[j] == x,
        decreases v.len() - i,
    {
        let x = v[i];
        let mut pos: usize = 0;
        while pos < r.len() && r[pos] < x
            invariant
                pos <= r.len(),
                forall|j: int| 0 <= j < pos ==> r@[j] < x,
            decreases r.len() - pos,
        {
            pos += 1;
        }
        if pos < r.len() && r[pos] == x {
            assert(exists|j: int| 0 <= j < i + 1 && v@[j] == x) by {
                assert(v@[i as int] == x);
            }
        } else {
            let ghost old_r = r@;
            r.insert(pos, x);
            assert(r@ =~= old_r.insert(pos as int, x));
            assert forall|a: int, b: int| 0 <= a < b < r@.len() implies #[trigger] r@[a]
                < #[trigger] r@[b] by {
                if b < pos {
                } else if b == pos {
                } else if a < pos {
                    assert(r@[b] == old_r[b - 1]);
                    if pos < old_r.len() {
                        assert(old_r[pos as int] > x);
                        if b - 1 > pos {
                            assert(old_r[pos as int] < old_r[b - 1]);
                        }
                    }
                } else if a == pos {
                    assert(old_r[pos as int] > x);
                    if b - 1 > pos {
                        assert(old_r[pos as int] < old_r[b - 1]);
                    }
                } else {
                    assert(old_r[a - 1] < old_r[b - 1]);
                }
            }
            assert forall|y: usize| r@.contains(y) <==> exists|j: int| 0 <= j < i + 1 && v@[j] == y by {
                if r@.contains(y) {
                    let k = choose|k: int| 0 <= k < r@.len() && r@[k] == y;
                    if k != pos {
                        if k < pos {
                            assert(old_r[k] == y);
                        } else {
                            assert(old_r[k - 1] == y);
                        }
                        assert(old_r.contains(y));
                    } else {
                        assert(v@[i as int] == y);
                    }
                }
                if exists|j: int| 0 <= j < i + 1 && v@[j] == y {
                    let j = choose|j: int| 0 <= j < i + 1 && v@[j] == y;
                    if j < i {
                        assert(old_r.contains(y));
                        let k = choose|k: int| 0 <= k < old_r.len() && old_r[k] == y;
                        if k < pos {
                            assert(r@[k] == y);
                        } else {
                            assert(r@[k + 1] == y);
                        }
                    } else {
                        assert(r@[pos as int] == y);
                    }
                }
            }
        }
        i += 1;
    }
    assert forall|x: usize| #[trigger] r@.contains(x) <==> #[trigger] v@.contains(x) by {
        if v@.contains(x) {
            let j = choose|j: int| 0 <= j < v@.len() && v@[j] == x;
        }
    }
    r
}


/// The edge `e` has `v` as an endpoint.
pub open spec fn touches(e: Edge, v: int) -> bool {
    e.from == v || e.to == v
}

/// The edge `e` joins `u` and `v`, in either direction.
pub open spec fn joins(e: Edge, u: int, v: int) -> bool {
    (e.from == u && e.to == v) || (e.from == v && e.to == u)
}

/// One of the edges listed in `es` joins `u` and `v`.
pub open spec fn links(edges: Seq<Edge>, es: Seq<usize>, u: int, v: int) -> bool {
    exists|q: int| 0 <= q < es.len() && #[trigger] joins(edges[es[q] as int], u, v)
}

/// `order` is not empty and each of its nodes after the first is joined, by an
/// edge listed in `es`, to a node that comes before it: the nodes of `order`
/// are connected through those edges.
pub open spec fn connected_order(edges: Seq<Edge>, es: Seq<usize>, order: Seq<usize>) -> bool {
    &&& order.len() > 0
    &&& chain_linked(edges, es, order)
}

/// The node `order[i]` is joined, by an edge listed in `es`, to a node before it in `order`.
pub open spec fn linked_back(edges: Seq<Edge>, es: Seq<usize>, order: Seq<usize>, i: int) -> bool {
    exists|j: int| 0 <= j < i && #[trigger] links(edges, es, order[j] as int, order[i] as int)
}

/// Each node of `order` after the first is joined, by an edge listed in `es`,
/// to a node that comes before it.
pub open spec fn chain_linked(edges: Seq<Edge>, es: Seq<usize>, order: Seq<usize>) -> bool {
    forall|i: int| 1 <= i < order.len() ==> #[trigger] linked_back(edges, es, order, i)
}

proof fn lemma_chain_push(edges: Seq<Edge>, es: Seq<usize>, order: Seq<usize>, node: usize, j: int)
    requires
        chain_linked(edges, es, order),
        0 <= j < order.len(),
        links(edges, es, order[j] as int, node as int),
    ensures
        chain_linked(edges, es, order.push(node)),
{
    let o2 = order.push(node);
    assert forall|i: int| 1 <= i < o2.len() implies #[trigger] linked_back(edges, es, o2, i) by {
        if i < order.len() {
            assert(linked_back(edges, es, order, i));
            let k = choose|k: int| 0 <= k < i && #[trigger] links(edges, es, order[k] as int, order[i] as int);
            assert(o2[k] == order[k] && o2[i] == order[i]);
            assert(links(edges, es, o2[k] as int, o2[i] as int));
        } else {
            assert(o2[j] == order[j] && o2[i] == node);
            assert(links(edges, es, o2[j] as int, o2[i] as int));
        }
    }
}

/// Every listed active edge is an edge of `edges` with both endpoints below `n`.
pub open spec fn active_within(edges: Seq<Edge>, active: Seq<usize>, n: int) -> bool {
    forall|p: int|
        0 <= p < active.len() ==> (#[trigger] active[p]) < edges.len() && edges[active[p] as int].from
            < n && edges[active[p] as int].to < n
}

/// The nodes, edges and search trace of one echo chamber.
#[derive(Clone, Debug)]
pub struct ChamberComponent {
    /// The nodes of the chamber, in increasing order.
    pub nodes: Vec<usize>,
    /// The edges of the chamber, in increasing order.
    pub edges: Vec<usize>,
    /// The edges in the order in which the search reached them, repeats included.
    pub edge_visits: Vec<usize>,
}

/// Every entry of `s` is one of the listed active edges.
#[verifier::opaque]
pub open spec fn all_active(active: Seq<usize>, s: Seq<usize>) -> bool {
    forall|i: int| 0 <= i < s.len() ==> active.contains(#[trigger] s[i])
}

/// Some edge listed in `es` has `v` as an endpoint.
pub open spec fn on_some_edge(edges: Seq<Edge>, es: Seq<usize>, v: int) -> bool {
    exists|r: int| 0 <= r < es.len() && #[trigger] touches(edges[es[r] as int], v)
}

/// The edge `e` has one of the nodes listed in `nodes` as an endpoint.
spec fn touches_some(e: Edge, nodes: Seq<usize>) -> bool {
    exists|j: int| 0 <= j < nodes.len() && touches(e, #[trigger] nodes[j] as int)
}

/// Each node listed in `nodes` lies on an edge listed in `es`.
#[verifier::opaque]
pub open spec fn nodes_on_edges(edges: Seq<Edge>, es: Seq<usize>, nodes: Seq<usize>) -> bool {
    forall|i: int| 0 <= i < nodes.len() ==> on_some_edge(edges, es, #[trigger] nodes[i] as int)
}

/// Both endpoints of each edge listed in `es` are listed in `nodes`.
#[verifier::opaque]
pub open spec fn edges_inside(edges: Seq<Edge>, es: Seq<usize>, nodes: Seq<usize>) -> bool {
    forall|q: int|
        0 <= q < es.len() ==> nodes.contains(edges[#[trigger] es[q] as int].from) && nodes.contains(
            edges[es[q] as int].to,
        )
}

/// Every active edge with an endpoint listed in `nodes` is listed in `es`.
#[verifier::opaque]
pub open spec fn closed_under(edges: Seq<Edge>, active: Seq<usize>, nodes: Seq<usize>, es: Seq<usize>) -> bool {
    forall|p: int|
        0 <= p < active.len() && (nodes.contains(edges[#[trigger] active[p] as int].from)
            || nodes.contains(edges[active[p] as int].to)) ==> es.contains(active[p])
}

/// The nodes listed in `nodes` are connected through the edges listed in `es`.
pub open spec fn connected(edges: Seq<Edge>, es: Seq<usize>, nodes: Seq<usize>) -> bool {
    exists|order: Seq<usize>| connected_order(edges, es, order) && #[trigger] same_members(order, nodes)
}

/// `c` is a connected component of the graph that the active edges form:
/// its node and edge lists are sorted, its edges are active and join its
/// nodes, each of its nodes lies on one of its edges, every active edge that
/// touches one of its nodes is one of its edges, and its nodes are connected
/// through its edges. Its search trace lists exactly its edges.
pub open spec fn chamber_shape(edges: Seq<Edge>, active: Seq<usize>, c: ChamberComponent) -> bool {
    &&& increasing(c.nodes@)
    &&& increasing(c.edges@)
    &&& c.nodes@.len() > 0
    &&& all_active(active, c.edges@)
    &&& edges_inside(edges, c.edges@, c.nodes@)
    &&& nodes_on_edges(edges, c.edges@, c.nodes@)
    &&& closed_under(edges, active, c.nodes@, c.edges@)
    &&& connected(edges, c.edges@, c.nodes@)
    &&& same_members(c.edge_visits@, c.edges@)
}

/// A node touched by an active edge is visited only with the edge's other endpoint.
#[verifier::opaque]
spec fn closed(edges: Seq<Edge>, active: Seq<usize>, vis: Seq<bool>) -> bool {
    forall|p: int|
        0 <= p < active.len() ==> (vis[edges[#[trigger] active[p] as int].from as int]
            || vis[edges[active[p] as int].to as int]) ==> vis[edges[active[p] as int].from as int]
            && vis[edges[active[p] as int].to as int]
}

/// The state of the search for one chamber, which started from the visited
/// nodes `v0`: the nodes `cn` and edges `ce` reached so far and the edges on `stack`.
#[verifier::opaque]
spec fn search_state(
    edges: Seq<Edge>,
    active: Seq<usize>,
    n: int,
    v0: Seq<bool>,
    visited: Seq<bool>,
    cn: Seq<usize>,
    ce: Seq<usize>,
    stack: Seq<usize>,
) -> bool {
    &&& visited.len() == n
    &&& v0.len() == n
    &&& forall|v: int| 0 <= v < n ==> #[trigger] visited[v] == (v0[v] || cn.contains(v as usize))
    &&& forall|i: int| 0 <= i < cn.len() ==> #[trigger] cn[i] < n && !v0[cn[i] as int]
    &&& forall|i: int, j: int| 0 <= i < j < cn.len() ==> cn[i] != cn[j]
    &&& all_active(active, stack)
    &&& forall|i: int|
        0 <= i < stack.len() ==> !v0[edges[#[trigger] stack[i] as int].from as int]
            && !v0[edges[stack[i] as int].to as int]
    &&& cn.len() > 0 ==> forall|i: int|
        0 <= i < stack.len() ==> touches_some(edges[#[trigger] stack[i] as int], cn)
    &&& all_active(active, ce)
    &&& forall|p: int, j: int|
        0 <= p < active.len() && 0 <= j < cn.len() && touches(
            edges[#[trigger] active[p] as int],
            #[trigger] cn[j] as int,
        ) ==> ce.contains(active[p]) || stack.contains(active[p])
    &&& chain_linked(edges, ce, cn)
    &&& nodes_on_edges(edges, ce, cn)
}

/// The active edges that the search puts on its stack when it first reaches
/// `node` while the chamber holds the edges `ce`: those at `node` that `ce` lacks.
pub open spec fn pushable(edges: Seq<Edge>, node: usize, ce: Seq<usize>) -> spec_fn(usize) -> bool {
    |a: usize| touches(edges[a as int], node as int) && !ce.contains(a)
}

/// A state of the search for one chamber: the nodes reached, in the order
/// reached; the edges taken off the stack, in the order taken; and the stack.
pub type SearchState = (Seq<usize>, Seq<usize>, Seq<usize>);

/// The search reaches `node`: a node reached before is left alone; a new one is
/// recorded, and the listed active edges at it that the chamber lacks go on the
/// stack in their listed order.
pub open spec fn search_visit(edges: Seq<Edge>, active: Seq<usize>, node: usize, st: SearchState) -> SearchState {
    if st.0.contains(node) {
        st
    } else {
        (st.0.push(node), st.1, st.2 + active.filter(pushable(edges, node, st.1)))
    }
}

/// One step of the search: the edge on top of the stack is taken off and added
/// to the chamber, and its tail and then its head are reached.
pub open spec fn search_step(edges: Seq<Edge>, active: Seq<usize>, st: SearchState) -> SearchState {
    if st.2.len() == 0 {
        st
    } else {
        let e = st.2.last();
        let taken = (st.0, st.1.push(e), st.2.drop_last());
        search_visit(edges, active, edges[e as int].to, search_visit(edges, active, edges[e as int].from, taken))
    }
}

/// The state of the search that starts from the edge `start` after `k` steps.
pub open spec fn search_after(edges: Seq<Edge>, active: Seq<usize>, start: usize, k: nat) -> SearchState
    decreases k,
{
    if k == 0 {
        (Seq::empty(), Seq::empty(), seq![start])
    } else {
        search_step(edges, active, search_after(edges, active, start, (k - 1) as nat))
    }
}

/// The search from the edge `start` ends, its stack empty, having taken the
/// edges `trace` off the stack in that order.
pub open spec fn search_trace(edges: Seq<Edge>, active: Seq<usize>, start: usize, trace: Seq<usize>) -> bool {
    exists|k: nat|
        (#[trigger] search_after(edges, active, start, k)).2.len() == 0 && search_after(edges, active, start, k).1
            == trace
}

proof fn lemma_search_settled(edges: Seq<Edge>, active: Seq<usize>, start: usize, k: nat, j: nat)
    requires
        search_after(edges, active, start, k).2.len() == 0,
        k <= j,
    ensures
        search_after(edges, active, start, j) == search_after(edges, active, start, k),
    decreases j - k,
{
    if k < j {
        lemma_search_settled(edges, active, start, k, (j - 1) as nat);
    }
}

/// A search ends in one way only: two traces of the search from one edge are equal.
pub proof fn lemma_search_trace_unique(
    edges: Seq<Edge>,
    active: Seq<usize>,
    start: usize,
    t1: Seq<usize>,
    t2: Seq<usize>,
)
    requires
        search_trace(edges, active, start, t1),
        search_trace(edges, active, start, t2),
    ensures
        t1 == t2,
{
    let k1 = choose|k: nat|
        (#[trigger] search_after(edges, active, start, k)).2.len() == 0 && search_after(edges, active, start, k).1 == t1;
    let k2 = choose|k: nat|
        (#[trigger] search_after(edges, active, start, k)).2.len() == 0 && search_after(edges, active, start, k).1 == t2;
    if k1 <= k2 {
        lemma_search_settled(edges, active, start, k1, k2);
    } else {
        lemma_search_settled(edges, active, start, k2, k1);
    }
}

/// Visit `node`, an endpoint of the edge just taken from the stack: when it is new,
/// mark it and put on the stack every active edge at it that the chamber lacks.
fn visit_node(
    node: usize,
    edges: &[Edge],
    active: &[usize],
    visited: &mut Vec<bool>,
    cn: &mut Vec<usize>,
    ce: &Vec<usize>,
    stack: &mut Vec<usize>,
    Ghost(v0): Ghost<Seq<bool>>,
)
    requires
        active_within(edges@, active@, old(visited).len() as int),
        closed(edges@, active@, v0),
        search_state(edges@, active@, old(visited).len() as int, v0, old(visited)@, old(cn)@, ce@, old(stack)@),
        ce@.len() > 0,
        touches(edges@[ce@.last() as int], node as int),
        !v0[edges@[ce@.last() as int].from as int],
        !v0[edges@[ce@.last() as int].to as int],
        old(cn)@.len() > 0 ==> old(cn)@.contains(edges@[ce@.last() as int].from) || old(cn)@.contains(edges@[ce@.last() as int].to),
        old(cn)@.len() == 0 ==> old(stack)@.len() == 0,
    ensures
        final(visited).len() == old(visited).len(),
        search_state(edges@, active@, old(visited).len() as int, v0, final(visited)@, final(cn)@, ce@, final(stack)@),
        final(cn)@.contains(node),
        forall|v: usize| old(cn)@.contains(v) ==> final(cn)@.contains(v),
        (count_false(final(visited)@) < count_false(old(visited)@)) || (final(visited)@ == old(visited)@ && final(stack)@ == old(stack)@),
        (final(cn)@, ce@, final(stack)@) == search_visit(edges@, active@, node, (old(cn)@, ce@, old(stack)@)),
{
    proof {
        reveal(search_state);
        reveal(closed);
        reveal(all_active);
    }
    let ghost n = visited.len() as int;
    let ghost eidx = ce@.last();
    assert(node < n);
    if !visited[node] {
        let ghost old_cn = cn@;
        let ghost old_vis = visited@;
        let ghost old_stack = stack@;
        assert(!v0[node as int] && !old_cn.contains(node));
        proof {
            lemma_count_false_set(visited@, node as int);
        }
        visited.set(node, true);
        cn.push(node);
        assert(cn@ == old_cn.push(node));
        assert forall|v: usize| old_cn.contains(v) implies cn@.contains(v) by {
            let k = choose|k: int| 0 <= k < old_cn.len() && old_cn[k] == v;
            assert(cn@[k] == v);
        }
        assert(cn@[old_cn.len() as int] == node);
        let mut q: usize = 0;
        assert(active@.subrange(0, 0).filter(pushable(edges@, node, ce@)) =~= Seq::<usize>::empty()) by {
            reveal(Seq::filter);
        }
        assert(stack@ =~= old_stack + active@.subrange(0, 0).filter(pushable(edges@, node, ce@)));
        while q < active.len()
            invariant
                n == visited.len(),
                active_within(edges@, active@, n),
                closed(edges@, active@, v0),
                cn@ == old_cn.push(node),
                !v0[node as int],
                old_stack.len() <= stack@.len(),
                forall|i: int| 0 <= i < old_stack.len() ==> #[trigger] stack@[i] == old_stack[i],
                forall|i: int|
                    old_stack.len() <= i < stack@.len() ==> active@.contains(#[trigger] stack@[i])
                        && touches(edges@[stack@[i] as int], node as int),
                stack@ == old_stack + active@.subrange(0, q as int).filter(pushable(edges@, node, ce@)),
                forall|p: int|
                    0 <= p < q && touches(edges@[#[trigger] active@[p] as int], node as int)
                        ==> ce@.contains(active@[p]) || stack@.contains(active@[p]),
                q <= active.len(),
            decreases active.len() - q,
        {
            let ae = active[q];
            assert(active@[q as int] < edges@.len());
            let ae_edge = edges[ae];
            let ghost pre = stack@;
            if (ae_edge.from == node || ae_edge.to == node) && !vec_contains(ce, ae) {
                stack.push(ae);
                assert(stack@.last() == ae);
            }
            proof {
                let pred = pushable(edges@, node, ce@);
                assert(active@.subrange(0, q + 1) =~= active@.subrange(0, q as int).push(ae));
                active@.subrange(0, q as int).lemma_filter_push(ae, pred);
                assert(stack@ =~= old_stack + active@.subrange(0, q + 1).filter(pred));
                assert forall|p: int|
                    0 <= p < q + 1 && touches(edges@[#[trigger] active@[p] as int], node as int)
                        implies ce@.contains(active@[p]) || stack@.contains(active@[p]) by {
                    if p < q {
                        if pre.contains(active@[p]) {
                            let k = choose|k: int| 0 <= k < pre.len() && pre[k] == active@[p];
                            assert(stack@[k] == pre[k]);
                        }
                    } else if !ce@.contains(ae) {
                        assert(stack@[stack@.len() - 1] == ae);
                    }
                }
            }
            q += 1;
        }
        proof {
            assert(active@.subrange(0, active@.len() as int) =~= active@);
            let new_stack = stack@;
            assert forall|i: int| 0 <= i < new_stack.len() implies active@.contains(#[trigger] new_stack[i])
                && !v0[edges@[new_stack[i] as int].from as int] && !v0[edges@[new_stack[i] as int].to as int] by {
                if i < old_stack.len() {
                    assert(new_stack[i] == old_stack[i]);
                } else {
                    let j = new_stack[i];
                    let pp = choose|pp: int| 0 <= pp < active@.len() && active@[pp] == j;
                    assert(active@[pp] == j);
                    let e = edges@[j as int];
                    assert(touches(e, node as int));
                    if v0[e.from as int] || v0[e.to as int] {
                        assert(v0[edges@[active@[pp] as int].from as int] && v0[edges@[active@[pp] as int].to as int]);
                    }
                }
            }
            assert forall|i: int| 0 <= i < new_stack.len() implies touches_some(edges@[#[trigger] new_stack[i] as int], cn@) by {
                if i < old_stack.len() {
                    assert(new_stack[i] == old_stack[i]);
                    assert(touches_some(edges@[old_stack[i] as int], old_cn));
                    let j = choose|j: int| 0 <= j < old_cn.len() && touches(edges@[old_stack[i] as int], #[trigger] old_cn[j] as int);
                    assert(cn@[j] == old_cn[j]);
                } else {
                    assert(touches(edges@[new_stack[i] as int], cn@[old_cn.len() as int] as int));
                }
            }
            assert forall|p: int, j: int|
                0 <= p < active@.len() && 0 <= j < cn@.len() && touches(
                    edges@[#[trigger] active@[p] as int],
                    #[trigger] cn@[j] as int,
                ) implies ce@.contains(active@[p]) || new_stack.contains(active@[p]) by {
                if j < old_cn.len() {
                    assert(cn@[j] == old_cn[j]);
                    if old_stack.contains(active@[p]) {
                        let k = choose|k: int| 0 <= k < old_stack.len() && old_stack[k] == active@[p];
                        assert(new_stack[k] == active@[p]);
                    }
                }
            }
            if old_cn.len() > 0 {
                let e = edges@[eidx as int];
                let other = if e.from == node { e.to } else { e.from };
                assert(old_cn.contains(other));
                let j = choose|j: int| 0 <= j < old_cn.len() && old_cn[j] == other;
                assert(joins(edges@[ce@[ce@.len() - 1] as int], old_cn[j] as int, node as int));
                assert(links(edges@, ce@, old_cn[j] as int, node as int));
                lemma_chain_push(edges@, ce@, old_cn, node, j);
            } else {
                assert(cn@.len() == 1);
            }
            assert(nodes_on_edges(edges@, ce@, cn@)) by {
                reveal(nodes_on_edges);
                assert forall|i: int| 0 <= i < cn@.len() implies on_some_edge(edges@, ce@, #[trigger] cn@[i] as int) by {
                    if i < old_cn.len() {
                        assert(cn@[i] == old_cn[i]);
                    } else {
                        assert(touches(edges@[ce@[ce@.len() - 1] as int], cn@[i] as int));
                    }
                }
            }
            assert forall|i: int| 0 <= i < cn@.len() implies #[trigger] cn@[i] < n && !v0[cn@[i] as int] by {
                if i < old_cn.len() {
                    assert(cn@[i] == old_cn[i]);
                }
            }
            assert forall|i: int, j: int| 0 <= i < j < cn@.len() implies cn@[i] != cn@[j] by {
                if j == old_cn.len() {
                    assert(cn@[i] == old_cn[i]);
                    assert(old_cn.contains(cn@[i]));
                } else {
                    assert(cn@[i] == old_cn[i] && cn@[j] == old_cn[j]);
                }
            }
            assert forall|v: int| 0 <= v < n implies #[trigger] visited@[v] == (v0[v] || cn@.contains(v as usize)) by {
                if v == node {
                    assert(cn@[old_cn.len() as int] == v);
                } else {
                    if cn@.contains(v as usize) {
                        let k = choose|k: int| 0 <= k < cn@.len() && cn@[k] == v as usize;
                        assert(old_cn[k] == v);
                    }
                    assert(old_vis[v] == visited@[v]);
                }
            }
        }
    } else {
        proof {
            let e = edges@[eidx as int];
            assert(!v0[node as int]);
        }
    }
}


proof fn lemma_links_transfer(edges: Seq<Edge>, es: Seq<usize>, es2: Seq<usize>, u: int, v: int)
    requires
        links(edges, es, u, v),
        forall|x: usize| es.contains(x) ==> es2.contains(x),
    ensures
        links(edges, es2, u, v),
{
    let q = choose|q: int| 0 <= q < es.len() && #[trigger] joins(edges[es[q] as int], u, v);
    assert(es.contains(es[q]));
    let q2 = choose|q2: int| 0 <= q2 < es2.len() && es2[q2] == es[q];
    assert(joins(edges[es2[q2] as int], u, v));
}

proof fn lemma_chain_transfer(edges: Seq<Edge>, es: Seq<usize>, es2: Seq<usize>, order: Seq<usize>)
    requires
        chain_linked(edges, es, order),
        forall|x: usize| es.contains(x) ==> es2.contains(x),
    ensures
        chain_linked(edges, es2, order),
{
    assert forall|i: int| 1 <= i < order.len() implies #[trigger] linked_back(edges, es2, order, i) by {
        assert(linked_back(edges, es, order, i));
        let j = choose|j: int| 0 <= j < i && #[trigger] links(edges, es, order[j] as int, order[i] as int);
        lemma_links_transfer(edges, es, es2, order[j] as int, order[i] as int);
    }
}

proof fn lemma_on_some_edge_transfer(edges: Seq<Edge>, es: Seq<usize>, es2: Seq<usize>, v: int)
    requires
        on_some_edge(edges, es, v),
        forall|x: usize| es.contains(x) ==> es2.contains(x),
    ensures
        on_some_edge(edges, es2, v),
{
    let r = choose|r: int| 0 <= r < es.len() && #[trigger] touches(edges[es[r] as int], v);
    assert(es.contains(es[r]));
    let r2 = choose|r2: int| 0 <= r2 < es2.len() && es2[r2] == es[r];
    assert(touches(edges[es2[r2] as int], v));
}

/// Taking the last edge off the stack and adding it to the chamber keeps the search state.
proof fn lemma_after_pop(
    edges: Seq<Edge>,
    active: Seq<usize>,
    n: int,
    v0: Seq<bool>,
    visited: Seq<bool>,
    cn: Seq<usize>,
    ce: Seq<usize>,
    stack: Seq<usize>,
)
    requires
        search_state(edges, active, n, v0, visited, cn, ce, stack),
        stack.len() > 0,
    ensures
        search_state(edges, active, n, v0, visited, cn, ce.push(stack.last()), stack.drop_last()),
        active.contains(stack.last()),
        !v0[edges[stack.last() as int].from as int],
        !v0[edges[stack.last() as int].to as int],
        cn.len() > 0 ==> cn.contains(edges[stack.last() as int].from) || cn.contains(
            edges[stack.last() as int].to,
        ),
{
    reveal(search_state);
    reveal(all_active);
    let eidx = stack.last();
    let ce2 = ce.push(eidx);
    let st2 = stack.drop_last();
    assert(stack[stack.len() - 1] == eidx);
    assert forall|x: usize| ce.contains(x) implies ce2.contains(x) by {
        let k = choose|k: int| 0 <= k < ce.len() && ce[k] == x;
        assert(ce2[k] == x);
    }
    lemma_chain_transfer(edges, ce, ce2, cn);
    assert(nodes_on_edges(edges, ce2, cn)) by {
        reveal(nodes_on_edges);
        assert forall|i: int| 0 <= i < cn.len() implies on_some_edge(edges, ce2, #[trigger] cn[i] as int) by {
            lemma_on_some_edge_transfer(edges, ce, ce2, cn[i] as int);
        }
    }
    assert forall|i: int| 0 <= i < st2.len() implies active.contains(#[trigger] st2[i]) && !v0[edges[st2[i] as int].from as int]
        && !v0[edges[st2[i] as int].to as int] by {
        assert(st2[i] == stack[i]);
    }
    assert forall|i: int| 0 <= i < st2.len() implies !v0[edges[#[trigger] st2[i] as int].from as int]
        && !v0[edges[st2[i] as int].to as int] by {
        assert(st2[i] == stack[i]);
    }
    if cn.len() > 0 {
        assert forall|i: int| 0 <= i < st2.len() implies touches_some(edges[#[trigger] st2[i] as int], cn) by {
            assert(st2[i] == stack[i]);
        }
        assert(touches_some(edges[stack[stack.len() - 1] as int], cn));
        let j = choose|j: int| 0 <= j < cn.len() && touches(edges[eidx as int], #[trigger] cn[j] as int);
        assert(cn.contains(cn[j]));
    }
    assert forall|i: int| 0 <= i < ce2.len() implies active.contains(#[trigger] ce2[i]) by {
        if i < ce.len() {
            assert(ce2[i] == ce[i]);
        }
    }
    assert forall|p: int, j: int|
        0 <= p < active.len() && 0 <= j < cn.len() && touches(
            edges[#[trigger] active[p] as int],
            #[trigger] cn[j] as int,
        ) implies ce2.contains(active[p]) || st2.contains(active[p]) by {
        if ce.contains(active[p]) {
        } else {
            let k = choose|k: int| 0 <= k < stack.len() && stack[k] == active[p];
            if k == stack.len() - 1 {
                assert(ce2[ce.len() as int] == active[p]);
            } else {
                assert(st2[k] == active[p]);
            }
        }
    }
}

/// Some chamber holds the node `v`.
spec fn in_some_chamber(ch: Seq<ChamberComponent>, v: usize) -> bool {
    exists|k: int| 0 <= k < ch.len() && #[trigger] ch[k].nodes@.contains(v)
}

/// The edge `j` belongs to one of the chambers.
pub open spec fn covered(ch: Seq<ChamberComponent>, j: usize) -> bool {
    exists|k: int| 0 <= k < ch.len() && #[trigger] ch[k].edges@.contains(j)
}

/// No node belongs to two chambers.
pub open spec fn chambers_disjoint(ch: Seq<ChamberComponent>) -> bool {
    forall|k1: int, k2: int, v: usize|
        0 <= k1 < ch.len() && 0 <= k2 < ch.len() && k1 != k2 && #[trigger] ch[k1].nodes@.contains(v)
            ==> !#[trigger] ch[k2].nodes@.contains(v)
}

/// One of the first `p` listed active edges belongs to `c`.
#[verifier::opaque]
pub open spec fn reached_before(c: ChamberComponent, active: Seq<usize>, p: int) -> bool {
    exists|q: int| 0 <= q < p && #[trigger] c.edges@.contains(active[q])
}

/// The chambers come in the order of their first edge in the list of active edges.
pub open spec fn chambers_ordered(active: Seq<usize>, ch: Seq<ChamberComponent>) -> bool {
    forall|k1: int, k2: int, q: int|
        0 <= k1 < k2 < ch.len() && 0 <= q < active.len() && #[trigger] ch[k2].edges@.contains(
            active[q],
        ) ==> #[trigger] reached_before(ch[k1], active, q)
}

/// The edges that the search puts on its stack on reaching a new node are
/// exactly the listed active edges at that node that the chamber lacks, each as
/// often as it is listed, in their listed order.
pub proof fn lemma_pushed_edges(edges: Seq<Edge>, active: Seq<usize>, node: usize, ce: Seq<usize>)
    ensures
        forall|x: usize|
            #![trigger active.filter(pushable(edges, node, ce)).contains(x)]
            active.filter(pushable(edges, node, ce)).contains(x) <==> (active.contains(x) && (edges[x as int].from
                == node || edges[x as int].to == node) && !ce.contains(x)),
        forall|k: int| 0 <= k < active.len() ==> #[trigger] active.take(k + 1).filter(pushable(edges, node, ce))
            == if (edges[active[k] as int].from == node || edges[active[k] as int].to == node) && !ce.contains(
            active[k],
        ) {
            active.take(k).filter(pushable(edges, node, ce)).push(active[k])
        } else {
            active.take(k).filter(pushable(edges, node, ce))
        },
        active.take(active.len() as int).filter(pushable(edges, node, ce)) == active.filter(pushable(edges, node, ce)),
{
    let pred = pushable(edges, node, ce);
    #[allow(deprecated)]
    active.filter_lemma(pred);
    assert forall|x: usize|
        #![trigger active.filter(pred).contains(x)]
        active.filter(pred).contains(x) <==> (active.contains(x) && (edges[x as int].from == node
            || edges[x as int].to == node) && !ce.contains(x)) by {
        if active.filter(pred).contains(x) {
            let i = choose|i: int| 0 <= i < active.filter(pred).len() && active.filter(pred)[i] == x;
            assert(pred(active.filter(pred)[i]));
            lemma_filter_subset(active, pred, i);
        }
        if active.contains(x) && (edges[x as int].from == node || edges[x as int].to == node) && !ce.contains(x) {
            let i = choose|i: int| 0 <= i < active.len() && active[i] == x;
            assert(pred(active[i]));
        }
    }
    assert forall|k: int| 0 <= k < active.len() implies #[trigger] active.take(k + 1).filter(pred) == if (
    edges[active[k] as int].from == node || edges[active[k] as int].to == node) && !ce.contains(active[k]) {
        active.take(k).filter(pred).push(active[k])
    } else {
        active.take(k).filter(pred)
    } by {
        assert(active.take(k + 1) =~= active.take(k).push(active[k]));
        active.take(k).lemma_filter_push(active[k], pred);
    }
    assert(active.take(active.len() as int) =~= active);
}

proof fn lemma_filter_subset(s: Seq<usize>, pred: spec_fn(usize) -> bool, i: int)
    requires
        0 <= i < s.filter(pred).len(),
    ensures
        s.contains(s.filter(pred)[i]),
    decreases s.len(),
{
    reveal(Seq::filter);
    if s.len() > 0 {
        let sub = s.drop_last().filter(pred);
        if i < sub.len() {
            if pred(s.last()) {
                assert(s.filter(pred)[i] == sub[i]);
            }
            lemma_filter_subset(s.drop_last(), pred, i);
            let j = choose|j: int| 0 <= j < s.drop_last().len() && s.drop_last()[j] == sub[i];
            assert(s[j] == sub[i]);
        } else {
            assert(s.filter(pred)[i] == s.last());
            assert(s[s.len() - 1] == s.last());
        }
    }
}

/// Each step of the search takes the edge on top of its stack into the chamber
/// and reaches the edge's tail before its head: a new tail is recorded first
/// and its new edges go on the stack first, below those of a new head, so that
/// they are taken later. An edge whose ends were both reached leaves the nodes
/// and the rest of the stack unchanged.
pub proof fn lemma_search_step_order(edges: Seq<Edge>, active: Seq<usize>, start: usize, k: nat)
    requires
        search_after(edges, active, start, k).2.len() > 0,
    ensures
        ({
            let st = search_after(edges, active, start, k);
            let nx = search_after(edges, active, start, k + 1);
            let e = st.2.last();
            let u = edges[e as int].from;
            let v = edges[e as int].to;
            let ce = st.1.push(e);
            &&& nx.1 == ce
            &&& (!st.0.contains(u) && !st.0.contains(v) && u != v) ==> nx.0 == st.0.push(u).push(v) && nx.2
                == st.2.drop_last() + active.filter(pushable(edges, u, ce)) + active.filter(pushable(edges, v, ce))
            &&& (!st.0.contains(u) && (st.0.contains(v) || u == v)) ==> nx.0 == st.0.push(u) && nx.2
                == st.2.drop_last() + active.filter(pushable(edges, u, ce))
            &&& (st.0.contains(u) && !st.0.contains(v)) ==> nx.0 == st.0.push(v) && nx.2 == st.2.drop_last()
                + active.filter(pushable(edges, v, ce))
            &&& (st.0.contains(u) && st.0.contains(v)) ==> nx.0 == st.0 && nx.2 == st.2.drop_last()
        }),
{
    let st = search_after(edges, active, start, k);
    let e = st.2.last();
    let u = edges[e as int].from;
    let v = edges[e as int].to;
    assert(search_after(edges, active, start, k + 1) == search_step(edges, active, st));
    if !st.0.contains(u) && st.0.contains(v) {
        assert(st.0.push(u).contains(v)) by {
            let i = choose|i: int| 0 <= i < st.0.len() && st.0[i] == v;
            assert(st.0.push(u)[i] == v);
        }
    }
    if !st.0.contains(u) && u == v {
        assert(st.0.push(u)[st.0.len() as int] == v);
    }
    if !st.0.contains(u) && !st.0.contains(v) && u != v {
        assert(!st.0.push(u).contains(v)) by {
            if st.0.push(u).contains(v) {
                let i = choose|i: int| 0 <= i < st.0.push(u).len() && st.0.push(u)[i] == v;
                assert(st.0[i] == v);
            }
        }
    }
}

/// `q` is the position of the first listed active edge that belongs to `c`.
pub open spec fn first_reached(c: ChamberComponent, active: Seq<usize>, q: int) -> bool {
    &&& 0 <= q < active.len()
    &&& c.edges@.contains(active[q])
    &&& !reached_before(c, active, q)
}

/// The search trace of `c` is that of the search from its first listed active edge.
pub open spec fn traced(edges: Seq<Edge>, active: Seq<usize>, c: ChamberComponent) -> bool {
    exists|q: int| #[trigger] first_reached(c, active, q) && search_trace(edges, active, active[q], c.edge_visits@)
}

/// What holds after the first `p` active edges have been considered.
#[verifier::opaque]
spec fn chambers_state(
    edges: Seq<Edge>,
    active: Seq<usize>,
    n: int,
    visited: Seq<bool>,
    ch: Seq<ChamberComponent>,
    p: int,
) -> bool {
    &&& visited.len() == n
    &&& forall|v: int| 0 <= v < n ==> #[trigger] visited[v] == in_some_chamber(ch, v as usize)
    &&& forall|k: int, v: usize| 0 <= k < ch.len() && #[trigger] ch[k].nodes@.contains(v) ==> v < n
    &&& closed(edges, active, visited)
    &&& forall|k: int| 0 <= k < ch.len() ==> chamber_shape(edges, active, #[trigger] ch[k])
    &&& chambers_disjoint(ch)
    &&& forall|q: int| 0 <= q < p ==> covered(ch, #[trigger] active[q])
    &&& forall|k: int| 0 <= k < ch.len() ==> reached_before(#[trigger] ch[k], active, p)
    &&& chambers_ordered(active, ch)
    &&& forall|k: int| 0 <= k < ch.len() ==> traced(edges, active, #[trigger] ch[k])
}

proof fn lemma_reached_later(c: ChamberComponent, active: Seq<usize>, p: int, q: int)
    requires
        reached_before(c, active, p),
        p <= q,
    ensures
        reached_before(c, active, q),
{
    reveal(reached_before);
    let r = choose|r: int| 0 <= r < p && #[trigger] c.edges@.contains(active[r]);
}

proof fn lemma_initial_state(edges: Seq<Edge>, active: Seq<usize>, n: int, visited: Seq<bool>)
    requires
        active_within(edges, active, n),
        visited.len() == n,
        forall|v: int| 0 <= v < n ==> !#[trigger] visited[v],
    ensures
        chambers_state(edges, active, n, visited, Seq::empty(), 0),
{
    reveal(chambers_state);
    reveal(closed);
    assert forall|q: int| 0 <= q < active.len() && (visited[edges[#[trigger] active[q] as int].from as int]
        || visited[edges[active[q] as int].to as int]) implies visited[edges[active[q] as int].from as int]
        && visited[edges[active[q] as int].to as int] by {
        assert(edges[active[q] as int].from < n);
        assert(edges[active[q] as int].to < n);
    }
}

/// When both ends of the next active edge are visited, the edge already belongs to a chamber.
proof fn lemma_skip_edge(
    edges: Seq<Edge>,
    active: Seq<usize>,
    n: int,
    visited: Seq<bool>,
    ch: Seq<ChamberComponent>,
    p: int,
)
    requires
        active_within(edges, active, n),
        0 <= p < active.len(),
        chambers_state(edges, active, n, visited, ch, p),
        visited[edges[active[p] as int].from as int],
    ensures
        chambers_state(edges, active, n, visited, ch, p + 1),
{
    reveal(chambers_state);
    let from = edges[active[p] as int].from;
    reveal(closed_under);
    assert(from < n);
    assert(in_some_chamber(ch, from));
    let k = choose|k: int| 0 <= k < ch.len() && #[trigger] ch[k].nodes@.contains(from);
    assert(chamber_shape(edges, active, ch[k]));
    assert(ch[k].edges@.contains(active[p]));
    assert forall|q: int| 0 <= q < p + 1 implies covered(ch, #[trigger] active[q]) by {
        if q == p {
            assert(ch[k].edges@.contains(active[q]));
        }
    }
    assert forall|k: int| 0 <= k < ch.len() implies reached_before(#[trigger] ch[k], active, p + 1) by {
        lemma_reached_later(ch[k], active, p, p + 1);
    }
}

/// When not both ends of the next active edge are visited, neither is, and a search can start.
proof fn lemma_start_search(
    edges: Seq<Edge>,
    active: Seq<usize>,
    n: int,
    visited: Seq<bool>,
    ch: Seq<ChamberComponent>,
    p: int,
)
    requires
        active_within(edges, active, n),
        0 <= p < active.len(),
        chambers_state(edges, active, n, visited, ch, p),
        !(visited[edges[active[p] as int].from as int] && visited[edges[active[p] as int].to as int]),
    ensures
        closed(edges, active, visited),
        search_state(edges, active, n, visited, visited, Seq::empty(), Seq::empty(), seq![active[p]]),
{
    reveal(chambers_state);
    reveal(closed);
    reveal(search_state);
    reveal(all_active);
    reveal(nodes_on_edges);
    assert(edges[active[p] as int].from < n);
    let st = seq![active[p]];
    assert(st[0] == active[p]);
    assert(active.contains(active[p]));
    assert(chain_linked(edges, Seq::empty(), Seq::empty()));
}

proof fn lemma_search_facts(
    edges: Seq<Edge>,
    active: Seq<usize>,
    n: int,
    v0: Seq<bool>,
    visited: Seq<bool>,
    cn: Seq<usize>,
    ce: Seq<usize>,
    stack: Seq<usize>,
)
    requires
        search_state(edges, active, n, v0, visited, cn, ce, stack),
    ensures
        visited.len() == n,
        forall|v: int| 0 <= v < n ==> #[trigger] visited[v] == (v0[v] || cn.contains(v as usize)),
        forall|i: int| 0 <= i < cn.len() ==> #[trigger] cn[i] < n && !v0[cn[i] as int],
        cn.len() > 0 ==> ce.len() > 0,
{
    reveal(search_state);
    reveal(nodes_on_edges);
    if cn.len() > 0 {
        assert(on_some_edge(edges, ce, cn[0] as int));
    }
}

proof fn lemma_new_chamber_visited(
    edges: Seq<Edge>,
    active: Seq<usize>,
    n: int,
    v0: Seq<bool>,
    visited: Seq<bool>,
    cn: Seq<usize>,
    ce: Seq<usize>,
    ch: Seq<ChamberComponent>,
    c: ChamberComponent,
)
    requires
        visited.len() == n,
        forall|v: int| 0 <= v < n ==> #[trigger] visited[v] == (v0[v] || cn.contains(v as usize)),
        forall|v: int| 0 <= v < n ==> #[trigger] v0[v] == in_some_chamber(ch, v as usize),
        forall|k: int, v: usize| 0 <= k < ch.len() && #[trigger] ch[k].nodes@.contains(v) ==> v < n,
        forall|i: int| 0 <= i < cn.len() ==> #[trigger] cn[i] < n && !v0[cn[i] as int],
        same_members(c.nodes@, cn),
        chambers_disjoint(ch),
    ensures
        forall|v: int| 0 <= v < n ==> #[trigger] visited[v] == in_some_chamber(ch.push(c), v as usize),
        forall|k: int, v: usize| 0 <= k < ch.len() + 1 && #[trigger] ch.push(c)[k].nodes@.contains(v) ==> v < n,
        chambers_disjoint(ch.push(c)),
{
    let ch2 = ch.push(c);
    let k_new = ch.len() as int;
    assert(ch2[k_new] == c);
    assert forall|k: int| 0 <= k < ch.len() implies #[trigger] ch2[k] == ch[k] by {}
    assert forall|v: int| 0 <= v < n implies #[trigger] visited[v] == in_some_chamber(ch2, v as usize) by {
        if v0[v] {
            let k = choose|k: int| 0 <= k < ch.len() && #[trigger] ch[k].nodes@.contains(v as usize);
            assert(ch2[k] == ch[k]);
        }
        if cn.contains(v as usize) {
            assert(c.nodes@.contains(v as usize));
        }
        if in_some_chamber(ch2, v as usize) {
            let k = choose|k: int| 0 <= k < ch2.len() && #[trigger] ch2[k].nodes@.contains(v as usize);
            if k < ch.len() {
                assert(ch[k].nodes@.contains(v as usize));
                assert(in_some_chamber(ch, v as usize));
            }
        }
    }
    assert forall|k: int, v: usize| 0 <= k < ch2.len() && #[trigger] ch2[k].nodes@.contains(v) implies v < n by {
        if k < ch.len() {
            assert(ch[k].nodes@.contains(v));
        } else {
            assert(cn.contains(v));
            let i = choose|i: int| 0 <= i < cn.len() && cn[i] == v;
        }
    }
    assert forall|k1: int, k2: int, v: usize|
        0 <= k1 < ch2.len() && 0 <= k2 < ch2.len() && k1 != k2 && #[trigger] ch2[k1].nodes@.contains(v)
            implies !#[trigger] ch2[k2].nodes@.contains(v) by {
        if k1 < ch.len() && k2 < ch.len() {
            assert(ch2[k1] == ch[k1] && ch2[k2] == ch[k2]);
        } else if k1 < ch.len() {
            assert(ch[k1].nodes@.contains(v));
            assert(in_some_chamber(ch, v));
            assert(v0[v as int]);
            if c.nodes@.contains(v) {
                let i = choose|i: int| 0 <= i < cn.len() && cn[i] == v;
            }
        } else {
            if ch[k2].nodes@.contains(v) {
                assert(in_some_chamber(ch, v));
                assert(v0[v as int]);
                let i = choose|i: int| 0 <= i < cn.len() && cn[i] == v;
            }
        }
    }
}

proof fn lemma_new_chamber_closed(
    edges: Seq<Edge>,
    active: Seq<usize>,
    n: int,
    v0: Seq<bool>,
    visited: Seq<bool>,
    cn: Seq<usize>,
    ce: Seq<usize>,
)
    requires
        active_within(edges, active, n),
        closed(edges, active, v0),
        search_state(edges, active, n, v0, visited, cn, ce, Seq::empty()),
        edges_inside(edges, ce, cn),
    ensures
        closed(edges, active, visited),
{
    reveal(closed);
    reveal(search_state);
    reveal(edges_inside);
    assert forall|q: int| 0 <= q < active.len() && (visited[edges[#[trigger] active[q] as int].from as int]
        || visited[edges[active[q] as int].to as int]) implies visited[edges[active[q] as int].from as int]
        && visited[edges[active[q] as int].to as int] by {
        let e = edges[active[q] as int];
        assert(e.from < n && e.to < n);
        if v0[e.from as int] || v0[e.to as int] {
            assert(v0[e.from as int] && v0[e.to as int]);
        } else {
            let j = if cn.contains(e.from) {
                choose|j: int| 0 <= j < cn.len() && cn[j] == e.from
            } else {
                choose|j: int| 0 <= j < cn.len() && cn[j] == e.to
            };
            assert(touches(e, cn[j] as int));
            assert(ce.contains(active[q]));
            let i = choose|i: int| 0 <= i < ce.len() && ce[i] == active[q];
            assert(cn.contains(edges[ce[i] as int].from) && cn.contains(edges[ce[i] as int].to));
        }
    }
}

proof fn lemma_new_chamber_order(
    edges: Seq<Edge>,
    active: Seq<usize>,
    n: int,
    v0: Seq<bool>,
    cn: Seq<usize>,
    ch: Seq<ChamberComponent>,
    c: ChamberComponent,
    p: int,
)
    requires
        0 <= p < active.len(),
        active_within(edges, active, n),
        forall|v: int| 0 <= v < n ==> #[trigger] v0[v] == in_some_chamber(ch, v as usize),
        forall|k: int| 0 <= k < ch.len() ==> chamber_shape(edges, active, #[trigger] ch[k]),
        forall|q: int| 0 <= q < p ==> covered(ch, #[trigger] active[q]),
        forall|k: int| 0 <= k < ch.len() ==> reached_before(#[trigger] ch[k], active, p),
        chambers_ordered(active, ch),
        forall|i: int| 0 <= i < cn.len() ==> #[trigger] cn[i] < n && !v0[cn[i] as int],
        chamber_shape(edges, active, c),
        same_members(c.nodes@, cn),
        c.edges@.contains(active[p]),
    ensures
        forall|q: int| 0 <= q < p + 1 ==> covered(ch.push(c), #[trigger] active[q]),
        forall|k: int| 0 <= k < ch.len() + 1 ==> reached_before(#[trigger] ch.push(c)[k], active, p + 1),
        chambers_ordered(active, ch.push(c)),
        !reached_before(c, active, p),
{
    reveal(edges_inside);
    let ch2 = ch.push(c);
    let k_new = ch.len() as int;
    assert(ch2[k_new] == c);
    assert forall|k: int| 0 <= k < ch.len() implies #[trigger] ch2[k] == ch[k] by {}
    assert forall|q: int| 0 <= q < p + 1 implies covered(ch2, #[trigger] active[q]) by {
        if q < p {
            assert(covered(ch, active[q]));
            let k = choose|k: int| 0 <= k < ch.len() && #[trigger] ch[k].edges@.contains(active[q]);
            assert(ch2[k] == ch[k]);
        } else {
            assert(ch2[k_new].edges@.contains(active[q]));
        }
    }
    assert forall|k: int| 0 <= k < ch2.len() implies reached_before(#[trigger] ch2[k], active, p + 1) by {
        if k < ch.len() {
            lemma_reached_later(ch[k], active, p, p + 1);
        } else {
            reveal(reached_before);
            assert(c.edges@.contains(active[p]));
        }
    }
    assert forall|q: int| 0 <= q < p implies !#[trigger] c.edges@.contains(active[q]) by {
        if c.edges@.contains(active[q]) {
            assert(covered(ch, active[q]));
            let k = choose|k: int| 0 <= k < ch.len() && #[trigger] ch[k].edges@.contains(active[q]);
            assert(chamber_shape(edges, active, ch[k]));
            let r = choose|r: int| 0 <= r < ch[k].edges@.len() && ch[k].edges@[r] == active[q];
            let from = edges[active[q] as int].from;
            assert(ch[k].nodes@.contains(from));
            assert(from < n);
            assert(in_some_chamber(ch, from));
            assert(v0[from as int]);
            let r2 = choose|r2: int| 0 <= r2 < c.edges@.len() && c.edges@[r2] == active[q];
            assert(c.nodes@.contains(from));
            let i = choose|i: int| 0 <= i < cn.len() && cn[i] == from;
        }
    }
    assert(!reached_before(c, active, p)) by {
        reveal(reached_before);
    }
    assert forall|k1: int, k2: int, q: int|
        0 <= k1 < k2 < ch2.len() && 0 <= q < active.len() && #[trigger] ch2[k2].edges@.contains(
            active[q],
        ) implies #[trigger] reached_before(ch2[k1], active, q) by {
        if k2 < ch.len() {
            assert(ch2[k1] == ch[k1] && ch2[k2] == ch[k2]);
        } else {
            assert(ch2[k1] == ch[k1]);
            if q < p {
                assert(c.edges@.contains(active[q]));
                assert(false);
            }
            lemma_reached_later(ch[k1], active, p, q);
        }
    }
}

proof fn lemma_chamber_shape(
    edges: Seq<Edge>,
    active: Seq<usize>,
    n: int,
    v0: Seq<bool>,
    visited: Seq<bool>,
    cn: Seq<usize>,
    ce: Seq<usize>,
    c: ChamberComponent,
)
    requires
        search_state(edges, active, n, v0, visited, cn, ce, Seq::empty()),
        edges_inside(edges, ce, cn),
        cn.len() > 0,
        increasing(c.nodes@),
        same_members(c.nodes@, cn),
        increasing(c.edges@),
        same_members(c.edges@, ce),
        c.edge_visits@ == ce,
    ensures
        chamber_shape(edges, active, c),
{
    let nodes = c.nodes@;
    let es = c.edges@;
    assert(nodes.contains(cn[0])) by {
        assert(cn.contains(cn[0]));
    }
    assert(all_active(active, es)) by {
        reveal(search_state);
        reveal(all_active);
        assert forall|q: int| 0 <= q < es.len() implies active.contains(#[trigger] es[q]) by {
            assert(es.contains(es[q]));
            let i = choose|i: int| 0 <= i < ce.len() && ce[i] == es[q];
        }
    }
    assert(edges_inside(edges, es, nodes)) by {
        reveal(edges_inside);
        assert forall|q: int| 0 <= q < es.len() implies nodes.contains(edges[#[trigger] es[q] as int].from)
            && nodes.contains(edges[es[q] as int].to) by {
            assert(es.contains(es[q]));
            let i = choose|i: int| 0 <= i < ce.len() && ce[i] == es[q];
            assert(cn.contains(edges[ce[i] as int].from) && cn.contains(edges[ce[i] as int].to));
        }
    }
    assert(nodes_on_edges(edges, es, nodes)) by {
        reveal(search_state);
        reveal(nodes_on_edges);
        assert forall|q: int| 0 <= q < nodes.len() implies on_some_edge(edges, es, #[trigger] nodes[q] as int) by {
            assert(nodes.contains(nodes[q]));
            let i = choose|i: int| 0 <= i < cn.len() && cn[i] == nodes[q];
            assert(on_some_edge(edges, ce, cn[i] as int));
            lemma_on_some_edge_transfer(edges, ce, es, cn[i] as int);
        }
    }
    assert(closed_under(edges, active, nodes, es)) by {
        reveal(search_state);
        reveal(closed_under);
        assert forall|p: int|
            0 <= p < active.len() && (nodes.contains(edges[#[trigger] active[p] as int].from)
                || nodes.contains(edges[active[p] as int].to)) implies es.contains(active[p]) by {
            let e = edges[active[p] as int];
            if nodes.contains(e.from) {
                let j = choose|j: int| 0 <= j < cn.len() && cn[j] == e.from;
                assert(touches(e, cn[j] as int));
            } else {
                let j = choose|j: int| 0 <= j < cn.len() && cn[j] == e.to;
                assert(touches(e, cn[j] as int));
            }
        }
    }
    assert(connected(edges, es, nodes)) by {
        reveal(search_state);
        lemma_chain_transfer(edges, ce, es, cn);
        assert(connected_order(edges, es, cn));
        assert(same_members(cn, nodes));
    }
}

/// The state after a chamber found by a search is added.
proof fn lemma_state_after_chamber(
    edges: Seq<Edge>,
    active: Seq<usize>,
    n: int,
    v0: Seq<bool>,
    visited: Seq<bool>,
    cn: Seq<usize>,
    ce: Seq<usize>,
    ch: Seq<ChamberComponent>,
    c: ChamberComponent,
    p: int,
)
    requires
        0 <= p < active.len(),
        active_within(edges, active, n),
        chambers_state(edges, active, n, v0, ch, p),
        search_state(edges, active, n, v0, visited, cn, ce, Seq::empty()),
        edges_inside(edges, ce, cn),
        ce.len() > 0,
        ce[0] == active[p],
        chamber_shape(edges, active, c),
        same_members(c.nodes@, cn),
        same_members(c.edges@, ce),
        search_trace(edges, active, active[p], c.edge_visits@),
    ensures
        chambers_state(edges, active, n, visited, ch.push(c), p + 1),
{
    reveal(chambers_state);
    lemma_new_chamber_closed(edges, active, n, v0, visited, cn, ce);
    lemma_search_facts(edges, active, n, v0, visited, cn, ce, Seq::empty());
    lemma_new_chamber_visited(edges, active, n, v0, visited, cn, ce, ch, c);
    assert(ce.contains(ce[0]));
    assert(c.edges@.contains(active[p]));
    lemma_new_chamber_order(edges, active, n, v0, cn, ch, c, p);
    let ch2 = ch.push(c);
    assert forall|k: int| 0 <= k < ch2.len() implies chamber_shape(edges, active, #[trigger] ch2[k]) by {
        if k < ch.len() {
            assert(ch2[k] == ch[k]);
        }
    }
    assert(first_reached(c, active, p));
    assert forall|k: int| 0 <= k < ch2.len() implies traced(edges, active, #[trigger] ch2[k]) by {
        if k < ch.len() {
            assert(ch2[k] == ch[k]);
        } else {
            assert(ch2[k] == c);
        }
    }
}

/// Find the echo chambers that the active edges form: the connected components
/// of the graph made of the edges `edges[j]` for the indices `j` listed in
/// `active_edges`. Chambers come in the order of their first listed edge; each
/// lists its nodes and edges in increasing order, and, as `edge_visits`, the
/// edges in the order in which the depth-first search from that first edge took
/// them off its stack (an edge pushed from both of its ends is taken twice).
pub fn echo_chamber_components(num_nodes: usize, edges: &[Edge], active_edges: &[usize]) -> (chambers: Vec<ChamberComponent>)
    requires
        active_within(edges@, active_edges@, num_nodes as int),
    ensures
        forall|k: int| 0 <= k < chambers.len() ==> chamber_shape(edges@, active_edges@, #[trigger] chambers@[k]),
        chambers_disjoint(chambers@),
        forall|p: int| 0 <= p < active_edges.len() ==> covered(chambers@, #[trigger] active_edges@[p]),
        chambers_ordered(active_edges@, chambers@),
        forall|k: int| 0 <= k < chambers.len() ==> traced(edges@, active_edges@, #[trigger] chambers@[k]),
{
    let n = num_nodes;
    let mut visited = false_row(n);
    let mut chambers: Vec<ChamberComponent> = Vec::new();
    proof {
        lemma_initial_state(edges@, active_edges@, n as int, visited@);
        assert(chambers@ =~= Seq::<ChamberComponent>::empty());
    }
    let mut p: usize = 0;
    while p < active_edges.len()
        invariant
            n == num_nodes,
            active_within(edges@, active_edges@, n as int),
            p <= active_edges.len(),
            visited.len() == n,
            chambers_state(edges@, active_edges@, n as int, visited@, chambers@, p as int),
        decreases active_edges.len() - p,
    {
        let start_edge = active_edges[p];
        assert(active_edges@[p as int] < edges@.len());
        let se = edges[start_edge];
        assert(se.from < n && se.to < n);
        if visited[se.from] && visited[se.to] {
            proof {
                lemma_skip_edge(edges@, active_edges@, n as int, visited@, chambers@, p as int);
            }
        } else {
            let ghost v0 = visited@;
            proof {
                lemma_start_search(edges@, active_edges@, n as int, visited@, chambers@, p as int);
            }
            let mut chamber_nodes: Vec<usize> = Vec::new();
            let mut chamber_edges: Vec<usize> = Vec::new();
            let mut stack: Vec<usize> = Vec::new();
            stack.push(start_edge);
            assert(stack@ =~= seq![start_edge]);
            assert(edges_inside(edges@, chamber_edges@, chamber_nodes@)) by {
                reveal(edges_inside);
            }
            let ghost mut steps: nat = 0;
            assert((chamber_nodes@, chamber_edges@, stack@) == search_after(edges@, active_edges@, start_edge, 0));
            while stack.len() > 0
                invariant
                    n == num_nodes,
                    active_within(edges@, active_edges@, n as int),
                    p < active_edges.len(),
                    start_edge == active_edges@[p as int],
                    visited.len() == n,
                    chambers_state(edges@, active_edges@, n as int, v0, chambers@, p as int),
                    closed(edges@, active_edges@, v0),
                    search_state(edges@, active_edges@, n as int, v0, visited@, chamber_nodes@, chamber_edges@, stack@),
                    chamber_nodes@.len() == 0 ==> chamber_edges@.len() == 0,
                    chamber_edges@.len() == 0 ==> stack@ == seq![start_edge] && chamber_nodes@.len() == 0,
                    chamber_edges@.len() > 0 ==> chamber_edges@[0] == start_edge,
                    edges_inside(edges@, chamber_edges@, chamber_nodes@),
                    (chamber_nodes@, chamber_edges@, stack@) == search_after(edges@, active_edges@, start_edge, steps),
                decreases count_false(visited@), stack@.len(),
            {
                let ghost pre_stack = stack@;
                let ghost pre_ce = chamber_edges@;
                let ghost pre_cn = chamber_nodes@;
                proof {
                    lemma_after_pop(edges@, active_edges@, n as int, v0, visited@, chamber_nodes@, chamber_edges@, stack@);
                }
                let eidx = stack.pop().unwrap();
                assert(eidx == pre_stack.last());
                assert(stack@ == pre_stack.drop_last());
                chamber_edges.push(eidx);
                assert(chamber_edges@ == pre_ce.push(pre_stack.last()));
                let ghost eidx_p = choose|pp: int| 0 <= pp < active_edges@.len() && active_edges@[pp] == eidx;
                assert(active_edges@[eidx_p] == eidx);
                let e = edges[eidx];
                assert(chamber_edges@.last() == eidx);
                visit_node(e.from, edges, active_edges, &mut visited, &mut chamber_nodes, &chamber_edges, &mut stack, Ghost(v0));
                visit_node(e.to, edges, active_edges, &mut visited, &mut chamber_nodes, &chamber_edges, &mut stack, Ghost(v0));
                proof {
                    assert(edges_inside(edges@, chamber_edges@, chamber_nodes@)) by {
                        reveal(edges_inside);
                        assert forall|i: int|
                            0 <= i < chamber_edges@.len() implies chamber_nodes@.contains(edges@[#[trigger] chamber_edges@[i] as int].from)
                                && chamber_nodes@.contains(edges@[chamber_edges@[i] as int].to) by {
                            if i < pre_ce.len() {
                                assert(chamber_edges@[i] == pre_ce[i]);
                                assert(pre_cn.contains(edges@[pre_ce[i] as int].from));
                                assert(pre_cn.contains(edges@[pre_ce[i] as int].to));
                            }
                        }
                    }
                    if pre_ce.len() == 0 {
                        assert(pre_stack == seq![start_edge]);
                        assert(chamber_edges@[0] == start_edge);
                    } else {
                        assert(chamber_edges@[0] == pre_ce[0]);
                    }
                }
                proof {
                    assert(search_after(edges@, active_edges@, start_edge, steps + 1) == search_step(
                        edges@,
                        active_edges@,
                        (pre_cn, pre_ce, pre_stack),
                    ));
                    steps = steps + 1;
                }
            }
            if chamber_nodes.len() > 0 {
                let nodes = sorted_distinct(&chamber_nodes);
                let edges_sorted = sorted_distinct(&chamber_edges);
                let ghost ce = chamber_edges@;
                let ghost cn = chamber_nodes@;
                let chamber = ChamberComponent { nodes, edges: edges_sorted, edge_visits: chamber_edges };
                proof {
                    assert(stack@ =~= Seq::<usize>::empty());
                    lemma_chamber_shape(edges@, active_edges@, n as int, v0, visited@, cn, ce, chamber);
                    assert(search_after(edges@, active_edges@, start_edge, steps).2.len() == 0);
                    assert(search_trace(edges@, active_edges@, active_edges@[p as int], chamber.edge_visits@));
                    lemma_state_after_chamber(edges@, active_edges@, n as int, v0, visited@, cn, ce, chambers@, chamber, p as int);
                }
                chambers.push(chamber);
            }
        }
        p += 1;
    }
    proof {
        reveal(chambers_state);
    }
    chambers
}


/// The indices 0, 1, …, n − 1: every edge of an n-edge network listed as active.
pub open spec fn all_edges(n: nat) -> Seq<usize> {
    Seq::new(n, |i: int| i as usize)
}

proof fn lemma_ring_chamber_holds_all(n: usize, c: ChamberComponent, i: int)
    requires
        n > 0,
        chamber_shape(ring_edges(n), all_edges(n as nat), c),
        c.nodes@.contains(0),
        0 <= i < n,
    ensures
        c.nodes@.contains(i as usize),
    decreases i,
{
    let edges = ring_edges(n);
    let active = all_edges(n as nat);
    if i > 0 {
        lemma_ring_chamber_holds_all(n, c, i - 1);
        let e = edges[i - 1];
        assert(e.from == i - 1);
        assert(active[i - 1] == i - 1);
        assert(c.edges@.contains(active[i - 1])) by {
            reveal(closed_under);
            assert(c.nodes@.contains(edges[active[i - 1] as int].from));
        }
        vstd::arithmetic::div_mod::lemma_small_mod(i as nat, n as nat);
        assert(e.to == i);
        assert(c.nodes@.contains(i as usize)) by {
            reveal(edges_inside);
            let q = choose|q: int| 0 <= q < c.edges@.len() && c.edges@[q] == active[i - 1];
            assert(c.nodes@.contains(edges[c.edges@[q] as int].to));
        }
    }
}

/// Flow that circulates around a ring forms a single echo chamber: when every
/// edge of the ring on `n` nodes is active, the chambers that the search
/// reports are one chamber, and it holds every node.
pub proof fn lemma_ring_forms_one_chamber(n: usize, chambers: Seq<ChamberComponent>)
    requires
        n > 0,
        forall|k: int|
            0 <= k < chambers.len() ==> chamber_shape(
                ring_edges(n),
                all_edges(n as nat),
                #[trigger] chambers[k],
            ),
        chambers_disjoint(chambers),
        forall|p: int| 0 <= p < n ==> covered(chambers, #[trigger] all_edges(n as nat)[p]),
    ensures
        chambers.len() == 1,
        forall|v: usize| v < n ==> #[trigger] chambers[0].nodes@.contains(v),
{
    let edges = ring_edges(n);
    let active = all_edges(n as nat);
    assert(covered(chambers, active[0]));
    let k0 = choose|k: int| 0 <= k < chambers.len() && #[trigger] chambers[k].edges@.contains(active[0]);
    let c0 = chambers[k0];
    assert(chamber_shape(edges, active, c0));
    assert(c0.nodes@.contains(0)) by {
        reveal(edges_inside);
        let q = choose|q: int| 0 <= q < c0.edges@.len() && c0.edges@[q] == active[0];
        assert(c0.nodes@.contains(edges[c0.edges@[q] as int].from));
    }
    assert forall|v: usize| v < n implies #[trigger] c0.nodes@.contains(v) by {
        lemma_ring_chamber_holds_all(n, c0, v as int);
    }
    assert forall|k: int| 0 <= k < chambers.len() implies #[trigger] chambers[k] == chambers[k0] && k == k0 by {
        if k != k0 {
            let c = chambers[k];
            assert(chamber_shape(edges, active, c));
            let v = c.nodes@[0];
            assert(on_some_edge(edges, c.edges@, v as int)) by {
                reveal(nodes_on_edges);
            }
            let r = choose|r: int| 0 <= r < c.edges@.len() && #[trigger] touches(edges[c.edges@[r] as int], v as int);
            assert(active.contains(c.edges@[r])) by {
                reveal(all_active);
            }
            let p = choose|p: int| 0 <= p < active.len() && active[p] == c.edges@[r];
            assert(edges[c.edges@[r] as int].from < n && edges[c.edges@[r] as int].to < n);
            assert(v < n);
            assert(c0.nodes@.contains(v));
            assert(c.nodes@.contains(v));
            assert(chambers[k0].nodes@.contains(v));
        }
    }
    assert(chambers[0] == chambers[k0]);
    if chambers.len() > 1 {
        assert(chambers[1] == chambers[k0]);
    }
}

} // verus!
