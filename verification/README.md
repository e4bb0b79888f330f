# hodge_belief

Hodge decomposition of belief networks, in two layers.

`src/` is the verified library. It holds the structure of a belief network
(agents and directed influence edges), the graph builders (complete graph,
ring, star), triangle detection, the boundary operators B₁ (incidence) and
B₂ (triangle boundaries) as exact sign matrices, the Laplacians
B₁B₁ᵀ, B₁ᵀB₁ and B₁ᵀB₁ + B₂B₂ᵀ over integers, the matrix transpose, and the
search that groups the edges carrying harmonic flow into echo chambers.
Each function has a contract, and the library proves its laws over integer
flows: B₁B₂ = 0, so that gradient flows are curl-free and curl flows are
divergence-free; B₁ᵀ is the adjoint of B₁, so that gradient, curl and harmonic
flows are mutually orthogonal; conservation of divergence; symmetry of the
Laplacians; the triangles and edge counts of the complete graph, ring and
star; that a uniform circulation on a ring is divergence-free and forms a
single echo chamber; and the exact trace of the echo-chamber search.

`app/` is the floating-point layer: beliefs, influence and agreement weights,
belief flow, the numeric solves of the decomposition, energies, stability
scores, Lyapunov analysis and the serde forms of the types. It builds on the
verified structure and operators of `src/`.
