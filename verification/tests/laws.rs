use hodge_belief::simplicial::{boundary2_matrix, incidence_matrix, Edge};
use hodge_belief::BeliefNetwork;

fn gradient(b1: &[Vec<i64>], f: &[i64], m: usize) -> Vec<i64> {
    (0..m).map(|j| (0..b1.len()).map(|i| b1[i][j] * f[i]).sum()).collect()
}

fn divergence(b1: &[Vec<i64>], x: &[i64]) -> Vec<i64> {
    b1.iter().map(|row| row.iter().zip(x).map(|(a, b)| a * b).sum()).collect()
}

fn circulation(b2: &[Vec<i64>], beta: &[i64]) -> Vec<i64> {
    b2.iter().map(|row| row.iter().zip(beta).map(|(a, b)| a * b).sum()).collect()
}

fn curl(b2: &[Vec<i64>], x: &[i64], t: usize) -> i64 {
    (0..b2.len()).map(|j| b2[j][t] * x[j]).sum()
}

fn inner(x: &[i64], y: &[i64]) -> i64 {
    x.iter().zip(y).map(|(a, b)| a * b).sum()
}

/// K4 with one edge reversed, so that some pairs are carried against their orientation.
fn mixed_k4() -> (Vec<Edge>, Vec<[usize; 3]>) {
    let mut net = BeliefNetwork::complete_graph(4);
    net.edges[2].from = 3;
    net.edges[2].to = 0;
    let triangles = net.detect_triangles();
    (net.to_edges(), triangles)
}

#[test]
fn gradient_flow_is_curl_free() {
    let (edges, triangles) = mixed_k4();
    assert_eq!(triangles.len(), 4);
    let b1 = incidence_matrix(4, &edges);
    let b2 = boundary2_matrix(edges.len(), &edges, &triangles);
    let f = vec![3, -1, 4, 10];
    let g = gradient(&b1, &f, edges.len());
    assert_eq!(g, vec![-4, 1, -7, 5, 11, 6]);
    for t in 0..triangles.len() {
        assert_eq!(curl(&b2, &g, t), 0);
    }
}

#[test]
fn curl_flow_is_divergence_free_and_orthogonal_to_gradients() {
    let (edges, triangles) = mixed_k4();
    let b1 = incidence_matrix(4, &edges);
    let b2 = boundary2_matrix(edges.len(), &edges, &triangles);
    let beta = vec![2, -3, 5, 7];
    let c = circulation(&b2, &beta);
    assert!(c.iter().any(|&x| x != 0));
    assert_eq!(divergence(&b1, &c), vec![0, 0, 0, 0]);
    let g = gradient(&b1, &[3, -1, 4, 10], edges.len());
    assert_eq!(inner(&g, &c), 0);
}

#[test]
fn ring_circulation_is_harmonic() {
    let net = BeliefNetwork::ring_graph(6);
    let edges = net.to_edges();
    let b1 = incidence_matrix(6, &edges);
    let h = vec![1; 6];
    assert_eq!(divergence(&b1, &h), vec![0; 6]);
    assert!(net.detect_triangles().is_empty());
    let g = gradient(&b1, &[5, -2, 0, 7, 1, 1], edges.len());
    assert_eq!(inner(&g, &h), 0);
    // On the ring of one node the single edge is a self-loop, and the
    // circulation leaves a divergence of 1 at its node.
    let single = BeliefNetwork::ring_graph(1);
    let b1_single = incidence_matrix(1, &single.to_edges());
    assert_eq!(divergence(&b1_single, &[1]), vec![1]);
}
