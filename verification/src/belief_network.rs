use vstd::prelude::*;

use crate::simplicial::{
    adjacent, boundary_product, divergence_at, edges_within, has_edge, lemma_boundary_of_boundary, Edge,
};

verus! {

/// A single agent of the network, known by its identifier.
#[derive(Clone, Debug)]
pub struct BeliefNode {
    pub id: String,
}

/// A directed influence edge between two agents, by node index.
#[derive(Clone, Copy, Debug)]
pub struct BeliefEdge {
    pub from: usize,
    pub to: usize,
}

/// The structure of a belief network: its agents and its influence edges.
#[derive(Clone, Debug)]
pub struct BeliefNetwork {
    pub nodes: Vec<BeliefNode>,
    pub edges: Vec<BeliefEdge>,
}

/// The decimal digit `d` as a character.
pub open spec fn digit_char(d: int) -> char {
    if d == 0 {
        '0'
    } else if d == 1 {
        '1'
    } else if d == 2 {
        '2'
    } else if d == 3 {
        '3'
    } else if d == 4 {
        '4'
    } else if d == 5 {
        '5'
    } else if d == 6 {
        '6'
    } else if d == 7 {
        '7'
    } else if d == 8 {
        '8'
    } else {
        '9'
    }
}

/// The decimal notation of `i`, without leading zeros.
pub open spec fn decimal(i: nat) -> Seq<char>
    decreases i,
{
    if i < 10 {
        seq![digit_char(i as int)]
    } else {
        decimal(i / 10).push(digit_char((i % 10) as int))
    }
}

/// The identifier given to node `i` by the graph builders: "n" and the index in decimal.
pub open spec fn node_label(i: nat) -> Seq<char> {
    seq!['n'] + decimal(i)
}

/// The identifier "n{i}", written by std's `format!`. Trusted: `format!`
/// writes a `usize` through `Display` as its decimal digits without leading
/// zeros, so the result is "n" followed by the decimal notation of `i`.
#[verifier::external_body]
fn format_node_label(i: usize) -> (s: String)
    ensures
        s@ == node_label(i as nat),
{
    format!("n{i}")
}

/// The edge of the simplicial complex that a belief edge stands for.
pub open spec fn edge_of(e: BeliefEdge) -> Edge {
    Edge { from: e.from, to: e.to }
}

/// The corners of `tri` are increasing and pairwise joined by edges.
pub open spec fn is_triangle(edges: Seq<Edge>, a: int, b: int, c: int) -> bool {
    &&& 0 <= a < b < c
    &&& adjacent(edges, a, b)
    &&& adjacent(edges, a, c)
    &&& adjacent(edges, b, c)
}

/// (x, y, z) comes before (a, b, c) in lexicographic order.
pub open spec fn lex_before(x: int, y: int, z: int, a: int, b: int, c: int) -> bool {
    x < a || (x == a && (y < b || (y == b && z < c)))
}

/// The edges (i, j) for i < j < n, in lexicographic order, of the rows i < k.
pub open spec fn complete_edges_upto(k: int, n: usize) -> Seq<Edge>
    decreases k,
{
    if k <= 0 {
        Seq::empty()
    } else {
        complete_edges_upto(k - 1, n) + complete_row(k - 1, n)
    }
}

/// The edges (i, j) for i < j < n, in increasing order of j.
pub open spec fn complete_row(i: int, n: usize) -> Seq<Edge> {
    Seq::new(
        (if n - i - 1 > 0 {
            n - i - 1
        } else {
            0
        }) as nat,
        |k: int| Edge { from: i as usize, to: (i + 1 + k) as usize },
    )
}

/// The edges of the complete graph on `n` nodes: (i, j) for i < j < n, lexicographically.
pub open spec fn complete_edges(n: usize) -> Seq<Edge> {
    complete_edges_upto(n as int, n)
}

/// The edges of the ring on `n` nodes: (i, (i + 1) mod n) for i < n.
pub open spec fn ring_edges(n: usize) -> Seq<Edge> {
    Seq::new(n as nat, |i: int| Edge { from: i as usize, to: ((i + 1) % (n as int)) as usize })
}

/// The edges of the star on `n` nodes: (0, i) for 0 < i < n.
pub open spec fn star_edges(n: usize) -> Seq<Edge> {
    Seq::new(
        (if n > 1 {
            n - 1
        } else {
            0
        }) as nat,
        |i: int| Edge { from: 0, to: (i + 1) as usize },
    )
}

impl BeliefNetwork {
    /// The edges of the network as edges of its simplicial complex.
    pub open spec fn topology(&self) -> Seq<Edge> {
        self.edges@.map_values(|e: BeliefEdge| edge_of(e))
    }

    /// Every edge of the network joins two of its nodes.
    pub open spec fn well_formed(&self) -> bool {
        edges_within(self.topology(), self.nodes.len() as int)
    }

    /// The nodes carry the identifiers "n0", "n1", … of the graph builders.
    pub open spec fn labelled(&self) -> bool {
        forall|i: int| 0 <= i < self.nodes.len() ==> (#[trigger] self.nodes[i]).id@ == node_label(
            i as nat,
        )
    }

    /// An empty network.
    pub fn new() -> (net: Self)
        ensures
            net.nodes.len() == 0,
            net.edges.len() == 0,
    {
        BeliefNetwork { nodes: Vec::new(), edges: Vec::new() }
    }

    /// Add a node and return its index.
    pub fn add_node(&mut self, node: BeliefNode) -> (idx: usize)
        ensures
            idx == old(self).nodes.len(),
            final(self).nodes@ == old(self).nodes@.push(node),
            final(self).edges@ == old(self).edges@,
            old(self).well_formed() ==> final(self).well_formed(),
    {
        let idx = self.nodes.len();
        self.nodes.push(node);
        idx
    }

    /// Add a directed edge from `from` to `to`.
    pub fn add_edge(&mut self, from: usize, to: usize)
        ensures
            final(self).edges@ == old(self).edges@.push(BeliefEdge { from, to }),
            final(self).nodes@ == old(self).nodes@,
            old(self).well_formed() && from < old(self).nodes.len() && to < old(self).nodes.len()
                ==> final(self).well_formed(),
    {
        proof {
            lemma_topology_push(self.edges@, BeliefEdge { from, to });
        }
        self.edges.push(BeliefEdge { from, to });
    }

    /// Number of nodes.
    pub fn num_nodes(&self) -> (n: usize)
        ensures
            n == self.nodes.len(),
    {
        self.nodes.len()
    }

    /// Number of edges.
    pub fn num_edges(&self) -> (m: usize)
        ensures
            m == self.edges.len(),
    {
        self.edges.len()
    }

    /// Convert to the edges of the simplicial complex.
    pub fn to_edges(&self) -> (edges: Vec<Edge>)
        ensures
            edges@ == self.topology(),
    {
        let mut edges: Vec<Edge> = Vec::new();
        let mut j: usize = 0;
        while j < self.edges.len()
            invariant
                j <= self.edges.len(),
                edges@ == self.topology().subrange(0, j as int),
            decreases self.edges.len() - j,
        {
            let e = self.edges[j];
            edges.push(Edge { from: e.from, to: e.to });
            assert(edges@ =~= self.topology().subrange(0, j + 1));
            j += 1;
        }
        assert(edges@ =~= self.topology());
        edges
    }
}

/// `tris` lists the triangle (a, b, c).
pub open spec fn lists_triangle(tris: Seq<[usize; 3]>, a: int, b: int, c: int) -> bool {
    exists|t: int|
        0 <= t < tris.len() && (#[trigger] tris[t])[0] == a && tris[t][1] == b && tris[t][2] == c
}

/// Every entry of `tris` is a triangle of `edges` with corners below `n`.
pub open spec fn all_triangles_of(tris: Seq<[usize; 3]>, edges: Seq<Edge>, n: int) -> bool {
    forall|t: int|
        0 <= t < tris.len() ==> is_triangle(
            edges,
            (#[trigger] tris[t])[0] as int,
            tris[t][1] as int,
            tris[t][2] as int,
        ) && tris[t][2] < n
}

/// The entries of `tris` are in strictly increasing lexicographic order.
pub open spec fn lex_sorted(tris: Seq<[usize; 3]>) -> bool {
    forall|s: int, t: int|
        0 <= s < t < tris.len() ==> lex_before(
            (#[trigger] tris[s])[0] as int,
            tris[s][1] as int,
            tris[s][2] as int,
            (#[trigger] tris[t])[0] as int,
            tris[t][1] as int,
            tris[t][2] as int,
        )
}

/// Every entry of `tris` comes before (a, b, c).
spec fn all_before(tris: Seq<[usize; 3]>, a: int, b: int, c: int) -> bool {
    forall|t: int|
        0 <= t < tris.len() ==> lex_before(
            (#[trigger] tris[t])[0] as int,
            tris[t][1] as int,
            tris[t][2] as int,
            a,
            b,
            c,
        )
}

/// `tris` lists every triangle of `edges` with corners below `n` that comes before (a, b, c).
spec fn complete_before(tris: Seq<[usize; 3]>, edges: Seq<Edge>, n: int, a: int, b: int, c: int) -> bool {
    forall|x: int, y: int, z: int|
        z < n && #[trigger] is_triangle(edges, x, y, z) && lex_before(x, y, z, a, b, c)
            ==> lists_triangle(tris, x, y, z)
}

pub(crate) fn false_row(len: usize) -> (row: Vec<bool>)
    ensures
        row.len() == len,
        forall|k: int| 0 <= k < len ==> !#[trigger] row[k],
{
    let mut row: Vec<bool> = Vec::new();
    let mut k: usize = 0;
    while k < len
        invariant
            k <= len,
            row.len() == k,
            forall|c: int| 0 <= c < k ==> !#[trigger] row[c],
        decreases len - k,
    {
        row.push(false);
        k += 1;
    }
    row
}

impl BeliefNetwork {
    /// The adjacency matrix of the network: adj[u][v] holds when some edge runs u → v.
    fn adjacency(&self) -> (adj: Vec<Vec<bool>>)
        requires
            self.well_formed(),
        ensures
            adj.len() == self.nodes.len(),
            forall|u: int| 0 <= u < self.nodes.len() ==> #[trigger] adj[u].len() == self.nodes.len(),
            forall|u: int, v: int|
                0 <= u < self.nodes.len() && 0 <= v < self.nodes.len() ==> #[trigger] adj[u][v]
                    == has_edge(self.topology(), u, v),
    {
        let n = self.nodes.len();
        let mut adj: Vec<Vec<bool>> = Vec::new();
        let mut i: usize = 0;
        while i < n
            invariant
                n == self.nodes.len(),
                i <= n,
                adj.len() == i,
                forall|u: int| 0 <= u < i ==> #[trigger] adj[u].len() == n,
                forall|u: int, v: int| 0 <= u < i && 0 <= v < n ==> !#[trigger] adj[u][v],
            decreases n - i,
        {
            adj.push(false_row(n));
            i += 1;
        }
        let ghost topo = self.topology();
        let mut k: usize = 0;
        while k < self.edges.len()
            invariant
                n == self.nodes.len(),
                topo == self.topology(),
                self.well_formed(),
                k <= self.edges.len(),
                adj.len() == n,
                forall|u: int| 0 <= u < n ==> #[trigger] adj[u].len() == n,
                forall|u: int, v: int|
                    0 <= u < n && 0 <= v < n ==> #[trigger] adj[u][v] == exists|j: int|
                        0 <= j < k && #[trigger] topo[j].from == u && topo[j].to == v,
            decreases self.edges.len() - k,
        {
            let e = self.edges[k];
            assert(topo[k as int] == edge_of(e));
            assert(e.from < n && e.to < n);
            assert(adj[e.from as int].len() == n);
            adj[e.from][e.to] = true;
            assert forall|u: int, v: int| 0 <= u < n && 0 <= v < n implies #[trigger] adj[u][v]
                == exists|j: int| 0 <= j < k + 1 && #[trigger] topo[j].from == u && topo[j].to == v by {
                if u == e.from && v == e.to {
                    assert(topo[k as int].from == u && topo[k as int].to == v);
                } else {
                    if exists|j: int| 0 <= j < k + 1 && #[trigger] topo[j].from == u && topo[j].to == v {
                        let j = choose|j: int|
                            0 <= j < k + 1 && #[trigger] topo[j].from == u && topo[j].to == v;
                        assert(j < k);
                    }
                }
            }
            k += 1;
        }
        adj
    }

    /// Detect the triangles (3-cliques) of the network: every (a, b, c) with
    /// a < b < c whose three pairs are joined by edges, in lexicographic order.
    pub fn detect_triangles(&self) -> (triangles: Vec<[usize; 3]>)
        requires
            self.well_formed(),
        ensures
            all_triangles_of(triangles@, self.topology(), self.nodes.len() as int),
            lex_sorted(triangles@),
            forall|a: int, b: int, c: int|
                c < self.nodes.len() && #[trigger] is_triangle(self.topology(), a, b, c)
                    ==> lists_triangle(triangles@, a, b, c),
    {
        let n = self.num_nodes();
        let adj = self.adjacency();
        let ghost topo = self.topology();
        let mut triangles: Vec<[usize; 3]> = Vec::new();
        let mut a: usize = 0;
        while a < n
            invariant
                n == self.nodes.len(),
                topo == self.topology(),
                adj.len() == n,
                forall|u: int| 0 <= u < n ==> #[trigger] adj[u].len() == n,
                forall|u: int, v: int|
                    0 <= u < n && 0 <= v < n ==> #[trigger] adj[u][v] == has_edge(topo, u, v),
                a <= n,
                all_triangles_of(triangles@, topo, n as int),
                lex_sorted(triangles@),
                all_before(triangles@, a as int, 0, 0),
                complete_before(triangles@, topo, n as int, a as int, 0, 0),
            decreases n - a,
        {
            let mut b: usize = a + 1;
            while b < n
                invariant
                    n == self.nodes.len(),
                    topo == self.topology(),
                    adj.len() == n,
                    forall|u: int| 0 <= u < n ==> #[trigger] adj[u].len() == n,
                    forall|u: int, v: int|
                        0 <= u < n && 0 <= v < n ==> #[trigger] adj[u][v] == has_edge(topo, u, v),
                    a < n,
                    a < b <= n,
                    all_triangles_of(triangles@, topo, n as int),
                    lex_sorted(triangles@),
                    all_before(triangles@, a as int, b as int, 0),
                    complete_before(triangles@, topo, n as int, a as int, b as int, 0),
                decreases n - b,
            {
                assert(adj[a as int].len() == n && adj[b as int].len() == n);
                if adj[a][b] || adj[b][a] {
                    let mut c: usize = b + 1;
                    while c < n
                        invariant
                            n == self.nodes.len(),
                            topo == self.topology(),
                            adj.len() == n,
                            forall|u: int| 0 <= u < n ==> #[trigger] adj[u].len() == n,
                            forall|u: int, v: int|
                                0 <= u < n && 0 <= v < n ==> #[trigger] adj[u][v] == has_edge(
                                    topo,
                                    u,
                                    v,
                                ),
                            a < b < n,
                            b < c <= n,
                            all_triangles_of(triangles@, topo, n as int),
                            lex_sorted(triangles@),
                            all_before(triangles@, a as int, b as int, c as int),
                            complete_before(
                                triangles@,
                                topo,
                                n as int,
                                a as int,
                                b as int,
                                c as int,
                            ),
                        decreases n - c,
                    {
                        assert(adj[a as int].len() == n && adj[b as int].len() == n && adj[c as int].len() == n);
                        let ab = adj[a][b] || adj[b][a];
                        let ac = adj[a][c] || adj[c][a];
                        let bc = adj[b][c] || adj[c][b];
                        if ab && ac && bc {
                            let ghost old_tris = triangles@;
                            triangles.push([a, b, c]);
                            assert(triangles@[old_tris.len() as int] == [a, b, c]);
                            assert(forall|t: int|
                                0 <= t < old_tris.len() ==> #[trigger] triangles@[t] == old_tris[t]);
                            assert(lists_triangle(triangles@, a as int, b as int, c as int));
                            assert forall|x: int, y: int, z: int|
                                z < n && #[trigger] is_triangle(topo, x, y, z) && lex_before(
                                    x,
                                    y,
                                    z,
                                    a as int,
                                    b as int,
                                    c + 1,
                                ) implies lists_triangle(triangles@, x, y, z) by {
                                if lex_before(x, y, z, a as int, b as int, c as int) {
                                    let t = choose|t: int|
                                        0 <= t < old_tris.len() && (#[trigger] old_tris[t])[0] == x
                                            && old_tris[t][1] == y && old_tris[t][2] == z;
                                    assert(triangles@[t] == old_tris[t]);
                                }
                            }
                        } else {
                            assert forall|x: int, y: int, z: int|
                                z < n && #[trigger] is_triangle(topo, x, y, z) && lex_before(
                                    x,
                                    y,
                                    z,
                                    a as int,
                                    b as int,
                                    c + 1,
                                ) implies lists_triangle(triangles@, x, y, z) by {
                                if !lex_before(x, y, z, a as int, b as int, c as int) {
                                    assert(x == a && y == b && z == c);
                                }
                            }
                        }
                        c += 1;
                    }
                }
                b += 1;
            }
            a += 1;
        }
        triangles
    }
}

proof fn lemma_topology_push(net_edges: Seq<BeliefEdge>, e: BeliefEdge)
    ensures
        net_edges.push(e).map_values(|x: BeliefEdge| edge_of(x)) == net_edges.map_values(
            |x: BeliefEdge| edge_of(x),
        ).push(edge_of(e)),
{
    assert(net_edges.push(e).map_values(|x: BeliefEdge| edge_of(x)) =~= net_edges.map_values(
        |x: BeliefEdge| edge_of(x),
    ).push(edge_of(e)));
}

impl BeliefNetwork {
    /// A network of `n` nodes "n0" … "n{n-1}" and no edges.
    fn labelled_nodes(n: usize) -> (net: Self)
        ensures
            net.nodes.len() == n,
            net.labelled(),
            net.edges.len() == 0,
    {
        let mut net = Self::new();
        let mut i: usize = 0;
        while i < n
            invariant
                i <= n,
                net.nodes.len() == i,
                net.labelled(),
                net.edges.len() == 0,
            decreases n - i,
        {
            let id = format_node_label(i);
            net.add_node(BeliefNode { id });
            i += 1;
        }
        net
    }

    /// Add the edge (from, to), with the topology growing by that edge.
    fn push_edge(&mut self, from: usize, to: usize)
        ensures
            final(self).topology() == old(self).topology().push(Edge { from, to }),
            final(self).nodes@ == old(self).nodes@,
            final(self).edges.len() == old(self).edges.len() + 1,
    {
        proof {
            lemma_topology_push(self.edges@, BeliefEdge { from, to });
        }
        self.add_edge(from, to);
    }

    /// The complete graph on `n` nodes: one edge i → j for every pair i < j,
    /// in lexicographic order.
    pub fn complete_graph(n: usize) -> (net: Self)
        ensures
            net.nodes.len() == n,
            net.labelled(),
            net.topology() == complete_edges(n),
            net.well_formed(),
            2 * net.edges.len() == n * (n - 1),
            forall|p: int| 0 <= p < net.edges.len() ==> #[trigger] net.topology()[p].from < net.topology()[p].to
                && net.topology()[p].to < n,
            forall|p: int, q: int|
                0 <= p < q < net.edges.len() ==> lex_before(
                    (#[trigger] net.topology()[p]).from as int,
                    net.topology()[p].to as int,
                    0,
                    (#[trigger] net.topology()[q]).from as int,
                    net.topology()[q].to as int,
                    0,
                ),
            forall|i: int, j: int| 0 <= i < j < n ==> #[trigger] has_edge(net.topology(), i, j),
    {
        let mut net = Self::labelled_nodes(n);
        assert(net.topology() =~= complete_edges_upto(0, n));
        let mut i: usize = 0;
        while i < n
            invariant
                i <= n,
                net.nodes.len() == n,
                net.labelled(),
                net.topology() == complete_edges_upto(i as int, n),
            decreases n - i,
        {
            let mut j: usize = i + 1;
            while j < n
                invariant
                    i < n,
                    i < j <= n,
                    net.nodes.len() == n,
                    net.labelled(),
                    net.topology() == complete_edges_upto(i as int, n) + complete_row(
                        i as int,
                        n,
                    ).subrange(0, j - i - 1),
                decreases n - j,
            {
                net.push_edge(i, j);
                assert(complete_row(i as int, n)[j - i - 1] == Edge { from: i, to: j });
                assert(complete_row(i as int, n).subrange(0, j - i - 1).push(Edge { from: i, to: j })
                    =~= complete_row(i as int, n).subrange(0, j + 1 - i - 1));
                j += 1;
            }
            assert(complete_row(i as int, n).subrange(0, n - i - 1) =~= complete_row(i as int, n));
            i += 1;
        }
        proof {
            lemma_complete_edges_within(n, n as int);
            lemma_complete_edges_shape(n);
        }
        net
    }

    /// The ring on `n` nodes: the edge i → (i + 1) mod n for every node i.
    pub fn ring_graph(n: usize) -> (net: Self)
        ensures
            net.nodes.len() == n,
            net.labelled(),
            net.topology() == ring_edges(n),
            net.well_formed(),
            net.edges.len() == n,
            forall|i: int| 0 <= i < n - 1 ==> #[trigger] net.topology()[i].from == i && net.topology()[i].to == i + 1,
            n > 0 ==> net.topology()[n - 1].from == n - 1 && net.topology()[n - 1].to == 0,
    {
        let mut net = Self::labelled_nodes(n);
        let mut i: usize = 0;
        while i < n
            invariant
                i <= n,
                net.nodes.len() == n,
                net.labelled(),
                net.topology() == ring_edges(n).subrange(0, i as int),
            decreases n - i,
        {
            net.push_edge(i, (i + 1) % n);
            assert(net.topology() =~= ring_edges(n).subrange(0, i + 1));
            i += 1;
        }
        assert(net.topology() =~= ring_edges(n));
        proof {
            lemma_ring_edges_shape(n);
        }
        net
    }

    /// The star on `n` nodes: the edge 0 → i for every node i other than the centre 0.
    pub fn star_graph(n: usize) -> (net: Self)
        ensures
            net.nodes.len() == n,
            net.labelled(),
            net.topology() == star_edges(n),
            net.well_formed(),
            net.edges.len() == if n > 1 { n - 1 } else { 0 },
            forall|j: int| 0 <= j < net.edges.len() ==> #[trigger] net.topology()[j].from == 0 && net.topology()[j].to == j + 1,
            forall|i: int| 0 < i < n ==> #[trigger] has_edge(net.topology(), 0, i),
    {
        let mut net = Self::labelled_nodes(n);
        assert(net.topology() =~= star_edges(n).subrange(0, 0));
        let mut i: usize = 1;
        while i < n
            invariant
                1 <= i,
                i <= n || i == 1,
                net.nodes.len() == n,
                net.labelled(),
                net.topology() == star_edges(n).subrange(0, i - 1),
            decreases n - i,
        {
            net.push_edge(0, i);
            assert(net.topology() =~= star_edges(n).subrange(0, i as int));
            i += 1;
        }
        assert(star_edges(n).len() == i - 1);
        assert(net.topology() =~= star_edges(n));
        proof {
            lemma_star_edges_shape(n);
        }
        net
    }
}

proof fn lemma_complete_edges_within(n: usize, k: int)
    requires
        k <= n,
    ensures
        edges_within(complete_edges_upto(k, n), n as int),
        forall|j: int|
            0 <= j < complete_edges_upto(k, n).len() ==> #[trigger] complete_edges_upto(k, n)[j].from
                < complete_edges_upto(k, n)[j].to,
    decreases k,
{
    if k > 0 {
        lemma_complete_edges_within(n, k - 1);
        let prev = complete_edges_upto(k - 1, n);
        let row = complete_row(k - 1, n);
        assert forall|j: int| 0 <= j < (prev + row).len() implies (prev + row)[j].from < n && (prev
            + row)[j].to < n && (prev + row)[j].from < (prev + row)[j].to by {
            if j >= prev.len() {
                assert((prev + row)[j] == row[j - prev.len()]);
            } else {
                assert((prev + row)[j] == prev[j]);
            }
        }
    }
}

proof fn lemma_complete_upto_has_edge(n: usize, k: int, a: int, b: int)
    requires
        0 <= a < k <= n,
        a < b < n,
    ensures
        has_edge(complete_edges_upto(k, n), a, b),
    decreases k,
{
    let prev = complete_edges_upto(k - 1, n);
    let row = complete_row(k - 1, n);
    let all = complete_edges_upto(k, n);
    assert(all == prev + row);
    if a < k - 1 {
        lemma_complete_upto_has_edge(n, k - 1, a, b);
        let j = choose|j: int| 0 <= j < prev.len() && #[trigger] prev[j].from == a && prev[j].to == b;
        assert(all[j] == prev[j]);
    } else {
        let j = prev.len() + (b - a - 1);
        assert(all[j] == row[b - a - 1]);
        assert(all[j].from == a && all[j].to == b);
    }
}

/// In the complete graph every two distinct nodes are joined by an edge, so
/// every three nodes a < b < c form a triangle.
pub proof fn lemma_complete_graph_triangles(n: usize, a: int, b: int, c: int)
    requires
        0 <= a < b < c < n,
    ensures
        is_triangle(complete_edges(n), a, b, c),
{
    lemma_complete_upto_has_edge(n, n as int, a, b);
    lemma_complete_upto_has_edge(n, n as int, a, c);
    lemma_complete_upto_has_edge(n, n as int, b, c);
}

proof fn lemma_complete_upto_len(n: usize, k: int)
    requires
        0 <= k <= n,
    ensures
        2 * complete_edges_upto(k, n).len() == k * (2 * n - k - 1),
    decreases k,
{
    if k > 0 {
        lemma_complete_upto_len(n, k - 1);
        assert(complete_row(k - 1, n).len() == n - k);
        assert(complete_edges_upto(k, n).len() == complete_edges_upto(k - 1, n).len()
            + complete_row(k - 1, n).len());
        assert((k - 1) * (2 * n - (k - 1) - 1) + 2 * (n - (k - 1) - 1) == k * (2 * n - k - 1))
            by (nonlinear_arith);
    } else {
        assert(k * (2 * n - k - 1) == 0) by (nonlinear_arith)
            requires
                k == 0,
        ;
    }
}

/// The complete graph on `n` nodes has n(n − 1)/2 edges.
pub proof fn lemma_complete_graph_edge_count(n: usize)
    ensures
        2 * complete_edges(n).len() == n * (n - 1),
{
    lemma_complete_upto_len(n, n as int);
    assert(n * (2 * n - n - 1) == n * (n - 1)) by (nonlinear_arith);
}

/// The star on `n` nodes has one edge from the centre 0 to every leaf: its
/// edges are 0 → 1, 0 → 2, …, 0 → n − 1, in that order, so there are n − 1 of
/// them (none for fewer than two nodes), and every leaf is joined to the centre.
pub proof fn lemma_star_edges_shape(n: usize)
    ensures
        star_edges(n).len() == if n > 1 { n - 1 } else { 0 },
        forall|j: int| 0 <= j < star_edges(n).len() ==> #[trigger] star_edges(n)[j].from == 0 && star_edges(n)[j].to == j + 1,
        forall|i: int| 0 < i < n ==> #[trigger] has_edge(star_edges(n), 0, i),
{
    let edges = star_edges(n);
    assert forall|i: int| 0 < i < n implies #[trigger] has_edge(edges, 0, i) by {
        assert(edges[i - 1].from == 0 && edges[i - 1].to == i);
    }
}

/// The ring on `n` nodes has n edges: i → i + 1 for every node i but the last,
/// and the closing edge n − 1 → 0.
pub proof fn lemma_ring_edges_shape(n: usize)
    ensures
        ring_edges(n).len() == n,
        forall|i: int| 0 <= i < n - 1 ==> #[trigger] ring_edges(n)[i].from == i && ring_edges(n)[i].to == i + 1,
        n > 0 ==> ring_edges(n)[n - 1].from == n - 1 && ring_edges(n)[n - 1].to == 0,
{
    assert forall|i: int| 0 <= i < n - 1 implies #[trigger] ring_edges(n)[i].from == i && ring_edges(n)[i].to
        == i + 1 by {
        vstd::arithmetic::div_mod::lemma_small_mod((i + 1) as nat, n as nat);
    }
    if n > 0 {
        vstd::arithmetic::div_mod::lemma_mod_self_0(n as int);
    }
}

proof fn lemma_complete_upto_sorted(n: usize, k: int)
    requires
        0 <= k <= n,
    ensures
        forall|p: int| 0 <= p < complete_edges_upto(k, n).len() ==> #[trigger] complete_edges_upto(k, n)[p].from < k,
        forall|p: int, q: int|
            0 <= p < q < complete_edges_upto(k, n).len() ==> lex_before(
                (#[trigger] complete_edges_upto(k, n)[p]).from as int,
                complete_edges_upto(k, n)[p].to as int,
                0,
                (#[trigger] complete_edges_upto(k, n)[q]).from as int,
                complete_edges_upto(k, n)[q].to as int,
                0,
            ),
    decreases k,
{
    if k > 0 {
        lemma_complete_upto_sorted(n, k - 1);
        let prev = complete_edges_upto(k - 1, n);
        let row = complete_row(k - 1, n);
        let all = complete_edges_upto(k, n);
        assert(all == prev + row);
        assert forall|p: int| 0 <= p < all.len() implies #[trigger] all[p].from < k by {
            if p < prev.len() {
                assert(all[p] == prev[p]);
            } else {
                assert(all[p] == row[p - prev.len()]);
            }
        }
        assert forall|p: int, q: int| 0 <= p < q < all.len() implies lex_before(
            (#[trigger] all[p]).from as int,
            all[p].to as int,
            0,
            (#[trigger] all[q]).from as int,
            all[q].to as int,
            0,
        ) by {
            if q < prev.len() {
                assert(all[p] == prev[p] && all[q] == prev[q]);
            } else if p < prev.len() {
                assert(all[p] == prev[p] && all[q] == row[q - prev.len()]);
                assert(prev[p].from < k - 1);
            } else {
                assert(all[p] == row[p - prev.len()] && all[q] == row[q - prev.len()]);
            }
        }
    }
}

/// The complete graph on `n` nodes has exactly one edge i → j for every pair
/// i < j < n: each edge runs from a smaller to a larger node below n, the edges
/// are in strictly increasing lexicographic order (so none repeats), every
/// pair is joined, and there are n(n − 1)/2 of them.
pub proof fn lemma_complete_edges_shape(n: usize)
    ensures
        2 * complete_edges(n).len() == n * (n - 1),
        forall|p: int| 0 <= p < complete_edges(n).len() ==> #[trigger] complete_edges(n)[p].from < complete_edges(n)[p].to
            && complete_edges(n)[p].to < n,
        forall|p: int, q: int|
            0 <= p < q < complete_edges(n).len() ==> lex_before(
                (#[trigger] complete_edges(n)[p]).from as int,
                complete_edges(n)[p].to as int,
                0,
                (#[trigger] complete_edges(n)[q]).from as int,
                complete_edges(n)[q].to as int,
                0,
            ),
        forall|i: int, j: int| 0 <= i < j < n ==> #[trigger] has_edge(complete_edges(n), i, j),
{
    lemma_complete_graph_edge_count(n);
    lemma_complete_edges_within(n, n as int);
    lemma_complete_upto_sorted(n, n as int);
    assert forall|i: int, j: int| 0 <= i < j < n implies #[trigger] has_edge(complete_edges(n), i, j) by {
        lemma_complete_upto_has_edge(n, n as int, i, j);
    }
}

/// The star has no triangle: no two leaves are joined by an edge.
pub proof fn lemma_star_graph_has_no_triangle(n: usize, a: int, b: int, c: int)
    ensures
        !is_triangle(star_edges(n), a, b, c),
{
    if is_triangle(star_edges(n), a, b, c) {
        let edges = star_edges(n);
        if has_edge(edges, b, c) {
            let j = choose|j: int| 0 <= j < edges.len() && #[trigger] edges[j].from == b && edges[j].to == c;
            assert(edges[j].from == 0);
        } else {
            let j = choose|j: int| 0 <= j < edges.len() && #[trigger] edges[j].from == c && edges[j].to == b;
            assert(edges[j].from == 0);
        }
    }
}

proof fn lemma_ring_has_edge(n: usize, u: int, v: int)
    requires
        has_edge(ring_edges(n), u, v),
    ensures
        0 <= u < n,
        (u + 1 < n && v == u + 1) || (u == n - 1 && v == 0),
{
    let edges = ring_edges(n);
    let j = choose|j: int| 0 <= j < edges.len() && #[trigger] edges[j].from == u && edges[j].to == v;
    assert(edges[j].from == j);
    if j + 1 < n {
        vstd::arithmetic::div_mod::lemma_small_mod((j + 1) as nat, n as nat);
    } else {
        vstd::arithmetic::div_mod::lemma_mod_self_0(n as int);
    }
}

/// A ring of at least four nodes has no triangle: its only cycle is the ring itself.
pub proof fn lemma_ring_graph_has_no_triangle(n: usize, a: int, b: int, c: int)
    requires
        n >= 4,
    ensures
        !is_triangle(ring_edges(n), a, b, c),
{
    let edges = ring_edges(n);
    if is_triangle(edges, a, b, c) {
        if has_edge(edges, a, b) {
            lemma_ring_has_edge(n, a, b);
        } else {
            lemma_ring_has_edge(n, b, a);
        }
        if has_edge(edges, a, c) {
            lemma_ring_has_edge(n, a, c);
        } else {
            lemma_ring_has_edge(n, c, a);
        }
        if has_edge(edges, b, c) {
            lemma_ring_has_edge(n, b, c);
        } else {
            lemma_ring_has_edge(n, c, b);
        }
    }
}

/// One unit of flow on each of `m` edges.
pub open spec fn unit_flow(m: nat) -> Seq<int> {
    Seq::new(m, |j: int| 1int)
}

proof fn lemma_ring_divergence_prefix(n: usize, i: int, k: int)
    requires
        n >= 2,
        0 <= i < n,
        0 <= k <= n,
    ensures
        divergence_at(ring_edges(n), unit_flow(n as nat), i, k) == (if (i == 0 && n - 1 < k) || (0 < i
            && i - 1 < k) {
            1int
        } else {
            0int
        }) - (if i < k {
            1int
        } else {
            0int
        }),
    decreases k,
{
    if k > 0 {
        lemma_ring_divergence_prefix(n, i, k - 1);
        let j = k - 1;
        assert(ring_edges(n)[j].from == j);
        assert(unit_flow(n as nat)[j] == 1);
        if j + 1 < n {
            vstd::arithmetic::div_mod::lemma_small_mod((j + 1) as nat, n as nat);
        } else {
            vstd::arithmetic::div_mod::lemma_mod_self_0(n as int);
        }
    }
}

/// A uniform circulation around a ring is divergence-free: with one unit of
/// flow on every edge of the ring on n ≥ 2 nodes, the divergence B₁ · flow is
/// 0 at every node.
pub proof fn lemma_ring_circulation_is_divergence_free(n: usize, i: int)
    requires
        n >= 2,
        0 <= i < n,
    ensures
        divergence_at(ring_edges(n), unit_flow(n as nat), i, n as int) == 0,
{
    lemma_ring_divergence_prefix(n, i, n as int);
}

/// The boundary of a boundary vanishes on every network: for the triangles
/// that `detect_triangles` lists, every entry of B₁ · B₂ is 0.
pub proof fn lemma_detected_triangles_have_no_boundary(
    edges: Seq<Edge>,
    n: int,
    tris: Seq<[usize; 3]>,
    t: int,
    i: int,
)
    requires
        all_triangles_of(tris, edges, n),
        0 <= t < tris.len(),
    ensures
        boundary_product(edges, tris[t], i, edges.len() as int) == 0,
{
    assert(is_triangle(edges, tris[t][0] as int, tris[t][1] as int, tris[t][2] as int));
    lemma_boundary_of_boundary(edges, tris[t], i);
}

impl Default for BeliefNetwork {
    fn default() -> (net: Self)
        ensures
            net.nodes.len() == 0,
            net.edges.len() == 0,
    {
        Self::new()
    }
}

} // verus!
