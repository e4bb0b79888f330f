use hodge_belief::belief_network::{BeliefEdge, BeliefNode};
use hodge_belief::harmonic_flow::echo_chamber_components;
use hodge_belief::simplicial::{
    boundary2_matrix, edge_laplacian, graph_laplacian, hodge_laplacian_1, incidence_matrix, Edge,
};
use hodge_belief::{BeliefNetwork, NodeType};

fn edge(from: usize, to: usize) -> Edge {
    Edge { from, to }
}

#[test]
fn network_building_keeps_indices() {
    let mut net = BeliefNetwork::new();
    assert_eq!(net.num_nodes(), 0);
    let a = net.add_node(BeliefNode { id: "proposer".to_string() });
    let b = net.add_node(BeliefNode { id: "skeptic".to_string() });
    assert_eq!((a, b), (0, 1));
    net.add_edge(a, b);
    net.add_edge(b, a);
    assert_eq!(net.num_nodes(), 2);
    assert_eq!(net.num_edges(), 2);
    let edges = net.to_edges();
    assert_eq!((edges[0].from, edges[0].to), (0, 1));
    assert_eq!((edges[1].from, edges[1].to), (1, 0));
    let empty = BeliefNetwork::default();
    assert_eq!(empty.num_nodes() + empty.num_edges(), 0);
    let e = BeliefEdge { from: 3, to: 4 };
    assert_eq!(e.to, 4);
}

#[test]
fn builders_label_nodes_in_decimal() {
    let net = BeliefNetwork::complete_graph(12);
    assert_eq!(net.nodes[0].id, "n0");
    assert_eq!(net.nodes[7].id, "n7");
    assert_eq!(net.nodes[11].id, "n11");
    assert_eq!(BeliefNetwork::ring_graph(3).nodes[2].id, "n2");
    assert_eq!(BeliefNetwork::star_graph(2).nodes[1].id, "n1");
}

#[test]
fn complete_graph_edges_in_lexicographic_order() {
    let net = BeliefNetwork::complete_graph(4);
    let pairs: Vec<(usize, usize)> = net.edges.iter().map(|e| (e.from, e.to)).collect();
    assert_eq!(pairs, vec![(0, 1), (0, 2), (0, 3), (1, 2), (1, 3), (2, 3)]);
    assert_eq!(BeliefNetwork::complete_graph(10).num_edges(), 45);
    assert_eq!(BeliefNetwork::complete_graph(0).num_edges(), 0);
    assert_eq!(BeliefNetwork::complete_graph(1).num_edges(), 0);
}

#[test]
fn complete_graph_triangles_are_all_triples() {
    let triangles = BeliefNetwork::complete_graph(5).detect_triangles();
    let mut expected = Vec::new();
    for a in 0..5 {
        for b in (a + 1)..5 {
            for c in (b + 1)..5 {
                expected.push([a, b, c]);
            }
        }
    }
    assert_eq!(triangles, expected);
    assert_eq!(triangles.len(), 10);
}

#[test]
fn ring_graph_edges_and_triangles() {
    let ring = BeliefNetwork::ring_graph(4);
    let pairs: Vec<(usize, usize)> = ring.edges.iter().map(|e| (e.from, e.to)).collect();
    assert_eq!(pairs, vec![(0, 1), (1, 2), (2, 3), (3, 0)]);
    assert!(ring.detect_triangles().is_empty());
    assert!(BeliefNetwork::ring_graph(7).detect_triangles().is_empty());
    assert_eq!(BeliefNetwork::ring_graph(3).detect_triangles(), vec![[0, 1, 2]]);
    let single = BeliefNetwork::ring_graph(1);
    assert_eq!((single.edges[0].from, single.edges[0].to), (0, 0));
    assert_eq!(BeliefNetwork::ring_graph(0).num_edges(), 0);
}

#[test]
fn star_graph_edges_and_triangles() {
    let star = BeliefNetwork::star_graph(5);
    let pairs: Vec<(usize, usize)> = star.edges.iter().map(|e| (e.from, e.to)).collect();
    assert_eq!(pairs, vec![(0, 1), (0, 2), (0, 3), (0, 4)]);
    assert!(star.detect_triangles().is_empty());
    assert_eq!(BeliefNetwork::star_graph(0).num_edges(), 0);
    assert_eq!(BeliefNetwork::star_graph(1).num_edges(), 0);
}

#[test]
fn triangles_ignore_edge_direction_and_duplicates() {
    let mut net = BeliefNetwork::new();
    for i in 0..4 {
        net.add_node(BeliefNode { id: format!("a{i}") });
    }
    net.add_edge(2, 0);
    net.add_edge(0, 1);
    net.add_edge(2, 1);
    net.add_edge(1, 2);
    net.add_edge(3, 3);
    assert_eq!(net.detect_triangles(), vec![[0, 1, 2]]);
}

#[test]
fn incidence_matrix_signs() {
    let edges = vec![edge(0, 1), edge(1, 2), edge(2, 0), edge(1, 1)];
    let b1 = incidence_matrix(3, &edges);
    assert_eq!(b1, vec![vec![-1, 0, 1, 0], vec![1, -1, 0, 1], vec![0, 1, -1, 0]]);
}

#[test]
fn incidence_columns_sum_to_zero_without_loops() {
    let net = BeliefNetwork::complete_graph(5);
    let edges = net.to_edges();
    let b1 = incidence_matrix(5, &edges);
    for j in 0..edges.len() {
        let s: i64 = (0..5).map(|i| b1[i][j]).sum();
        assert_eq!(s, 0);
    }
    let flow: Vec<i64> = (0..edges.len() as i64).map(|x| 3 * x - 7).collect();
    let total: i64 = (0..5).map(|i| (0..edges.len()).map(|j| b1[i][j] * flow[j]).sum::<i64>()).sum();
    assert_eq!(total, 0);
}

#[test]
fn boundary_matrix_orientation() {
    // (0,1), (1,2), and (2,0) which carries the pair (0,2) backwards.
    let edges = vec![edge(0, 1), edge(1, 2), edge(2, 0)];
    let b2 = boundary2_matrix(3, &edges, &[[0, 1, 2]]);
    // boundary of (0,1,2) = (1,2) - (0,2) + (0,1); (0,2) is stored as 2 -> 0.
    assert_eq!(b2, vec![vec![1], vec![1], vec![1]]);
    let forward = vec![edge(0, 1), edge(1, 2), edge(0, 2)];
    let b2f = boundary2_matrix(3, &forward, &[[0, 1, 2]]);
    assert_eq!(b2f, vec![vec![1], vec![1], vec![-1]]);
}

#[test]
fn boundary_matrix_first_matching_edge_and_missing_pairs() {
    let edges = vec![edge(5, 6), edge(0, 1), edge(0, 1), edge(1, 0)];
    let b2 = boundary2_matrix(4, &edges, &[[0, 1, 9]]);
    assert_eq!(b2, vec![vec![0], vec![1], vec![0], vec![0]]);
    let empty = boundary2_matrix(0, &[], &[[0, 1, 2]]);
    assert!(empty.is_empty());
}

#[test]
fn boundary_of_boundary_is_zero_on_complete_graph() {
    let net = BeliefNetwork::complete_graph(5);
    let edges = net.to_edges();
    let triangles = net.detect_triangles();
    let b1 = incidence_matrix(5, &edges);
    let b2 = boundary2_matrix(edges.len(), &edges, &triangles);
    for i in 0..5 {
        for t in 0..triangles.len() {
            let s: i64 = (0..edges.len()).map(|j| b1[i][j] * b2[j][t]).sum();
            assert_eq!(s, 0);
        }
    }
}

#[test]
fn laplacians_of_the_ring() {
    let net = BeliefNetwork::ring_graph(4);
    let edges = net.to_edges();
    let b1 = incidence_matrix(4, &edges);
    let l0 = graph_laplacian(&b1);
    assert_eq!(
        l0,
        vec![vec![2, -1, 0, -1], vec![-1, 2, -1, 0], vec![0, -1, 2, -1], vec![-1, 0, -1, 2]]
    );
    let up = edge_laplacian(&b1);
    assert_eq!(
        up,
        vec![vec![2, -1, 0, -1], vec![-1, 2, -1, 0], vec![0, -1, 2, -1], vec![-1, 0, -1, 2]]
    );
    let b2 = boundary2_matrix(4, &edges, &net.detect_triangles());
    assert_eq!(hodge_laplacian_1(&b1, &b2), up);
}

#[test]
fn hodge_laplacian_adds_the_down_part() {
    let net = BeliefNetwork::complete_graph(3);
    let edges = net.to_edges();
    let b1 = incidence_matrix(3, &edges);
    let b2 = boundary2_matrix(3, &edges, &net.detect_triangles());
    let l1 = hodge_laplacian_1(&b1, &b2);
    // B1ᵀB1 + B2B2ᵀ = 3·I on a filled triangle.
    assert_eq!(l1, vec![vec![3, 0, 0], vec![0, 3, 0], vec![0, 0, 3]]);
    for i in 0..3 {
        for j in 0..3 {
            assert_eq!(l1[i][j], l1[j][i]);
        }
    }
    assert!(hodge_laplacian_1(&[], &[]).is_empty());
    assert!(graph_laplacian(&[]).is_empty());
    assert!(edge_laplacian(&[]).is_empty());
}

#[test]
fn echo_chambers_on_a_ring() {
    let net = BeliefNetwork::ring_graph(5);
    let edges = net.to_edges();
    let chambers = echo_chamber_components(5, &edges, &[0, 1, 2, 3, 4]);
    assert_eq!(chambers.len(), 1);
    assert_eq!(chambers[0].nodes, vec![0, 1, 2, 3, 4]);
    assert_eq!(chambers[0].edges, vec![0, 1, 2, 3, 4]);
    // The closing edge 4 -> 0 is pushed from node 0 and again from node 4.
    assert_eq!(chambers[0].edge_visits, vec![0, 1, 2, 3, 4, 4]);
}

#[test]
fn echo_chambers_split_into_components_in_order() {
    let edges = vec![
        edge(4, 5),
        edge(0, 1),
        edge(5, 6),
        edge(1, 2),
        edge(6, 4),
        edge(2, 0),
        edge(7, 8),
    ];
    let chambers = echo_chamber_components(9, &edges, &[1, 0, 2, 3, 4, 5]);
    assert_eq!(chambers.len(), 2);
    assert_eq!(chambers[0].nodes, vec![0, 1, 2]);
    assert_eq!(chambers[0].edges, vec![1, 3, 5]);
    assert_eq!(chambers[1].nodes, vec![4, 5, 6]);
    assert_eq!(chambers[1].edges, vec![0, 2, 4]);
    assert!(echo_chamber_components(9, &edges, &[]).is_empty());
    let single = echo_chamber_components(9, &edges, &[6]);
    assert_eq!(single[0].nodes, vec![7, 8]);
    assert_eq!(single[0].edge_visits, vec![6]);
}

#[test]
fn echo_chamber_search_reaches_an_edge_twice() {
    // A triangle: the edge (1,2) is pushed from node 1 and again from node 2
    // before it is taken off the stack.
    let edges = vec![edge(0, 1), edge(0, 2), edge(1, 2)];
    let chambers = echo_chamber_components(3, &edges, &[0, 1, 2]);
    assert_eq!(chambers.len(), 1);
    assert_eq!(chambers[0].edges, vec![0, 1, 2]);
    assert_eq!(chambers[0].edge_visits, vec![0, 2, 1, 1]);
}

#[test]
fn node_types_compare() {
    assert_eq!(NodeType::Converter, NodeType::Converter);
    assert_ne!(NodeType::Apostate, NodeType::Neutral);
}
