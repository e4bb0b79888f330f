use hodge_belief::linalg;
use hodge_belief::BeliefNetwork;

#[test]
fn test_triangles_detected_in_complete_graph() {
    let net = BeliefNetwork::complete_graph(4);
    let triangles = net.detect_triangles();
    assert_eq!(triangles.len(), 4, "K₄ should have 4 triangles (C(4,3))");
}

#[test]
fn test_transpose() {
    let a = vec![vec![1.0, 2.0, 3.0], vec![4.0, 5.0, 6.0]];
    let at = linalg::transpose(&a);
    assert_eq!(at.len(), 3);
    assert_eq!(at[0], vec![1.0, 4.0]);
    assert_eq!(at[1], vec![2.0, 5.0]);
    assert_eq!(at[2], vec![3.0, 6.0]);
}
