use vstd::prelude::*;

verus! {

/// A directed edge of the simplicial complex, by node indices.
#[derive(Clone, Copy, Debug)]
pub struct Edge {
    pub from: usize,
    pub to: usize,
}

/// True when `x` is a value of `i64`.
pub open spec fn fits_i64(x: int) -> bool {
    i64::MIN <= x <= i64::MAX
}

/// Every edge of `edges` has both endpoints below `n`.
pub open spec fn edges_within(edges: Seq<Edge>, n: int) -> bool {
    forall|j: int| 0 <= j < edges.len() ==> edges[j].from < n && edges[j].to < n
}

/// Entry of the incidence matrix B₁ in row `i` for the edge `e`:
/// +1 at the head, −1 at the tail, 0 elsewhere (a self-loop keeps the +1 of its head).
pub open spec fn incidence_entry(e: Edge, i: int) -> int {
    if e.to == i {
        1
    } else if e.from == i {
        -1
    } else {
        0
    }
}

/// Index of the first edge `u → v` at or after position `k`.
pub open spec fn edge_position_from(edges: Seq<Edge>, u: usize, v: usize, k: int) -> Option<int>
    decreases edges.len() - k,
{
    if k < 0 || k >= edges.len() {
        None
    } else if edges[k].from == u && edges[k].to == v {
        Some(k)
    } else {
        edge_position_from(edges, u, v, k + 1)
    }
}

/// Index of the first edge `u → v` of `edges`, if there is one.
pub open spec fn edge_position(edges: Seq<Edge>, u: usize, v: usize) -> Option<int> {
    edge_position_from(edges, u, v, 0)
}

/// Where the oriented pair `u → v` with `sign` lands in a column of B₂: the row of the
/// first edge `u → v` with `sign`, else the row of the first edge `v → u` with `-sign`.
pub open spec fn pair_write(edges: Seq<Edge>, u: usize, v: usize, sign: int) -> Option<(int, int)> {
    match edge_position(edges, u, v) {
        Some(r) => Some((r, sign)),
        None => match edge_position(edges, v, u) {
            Some(r) => Some((r, -sign)),
            None => None,
        },
    }
}

/// The value that the write `w` puts in row `r`, if it writes there.
pub open spec fn written(w: Option<(int, int)>, r: int) -> Option<int> {
    match w {
        Some(rs) => if rs.0 == r {
            Some(rs.1)
        } else {
            None
        },
        None => None,
    }
}

/// The value left in row `r` by the writes `w1`, `w2`, `w3` made in that order.
pub open spec fn last_written(w1: Option<(int, int)>, w2: Option<(int, int)>, w3: Option<(int, int)>, r: int) -> int {
    match written(w3, r) {
        Some(s) => s,
        None => match written(w2, r) {
            Some(s) => s,
            None => match written(w1, r) {
                Some(s) => s,
                None => 0,
            },
        },
    }
}

/// Entry of B₂ in row `r` for the triangle `tri = (a, b, c)`, whose boundary is
/// (b,c) − (a,c) + (a,b), each pair written in that order on the edge that carries it.
pub open spec fn boundary_entry(edges: Seq<Edge>, tri: [usize; 3], r: int) -> int {
    last_written(
        pair_write(edges, tri[1], tri[2], 1),
        pair_write(edges, tri[0], tri[2], -1),
        pair_write(edges, tri[0], tri[1], 1),
        r,
    )
}

/// Number of columns read from a matrix: the length of its first row.
pub open spec fn width(a: Seq<Vec<i64>>) -> int {
    if a.len() > 0 {
        a[0].len() as int
    } else {
        0
    }
}

/// Every row of `a` has at least `w` entries.
pub open spec fn rows_at_least(a: Seq<Vec<i64>>, w: int) -> bool {
    forall|i: int| 0 <= i < a.len() ==> #[trigger] a[i].len() >= w
}

/// Σ_{k < len} a[i][k]·a[j][k]: the product of rows `i` and `j` over the first `len` columns.
pub open spec fn row_dot(a: Seq<Vec<i64>>, i: int, j: int, len: int) -> int
    decreases len,
{
    if len <= 0 {
        0
    } else {
        row_dot(a, i, j, len - 1) + a[i][len - 1] * a[j][len - 1]
    }
}

/// Σ_{k < len} a[k][i]·a[k][j]: the product of columns `i` and `j` over the first `len` rows.
pub open spec fn col_dot(a: Seq<Vec<i64>>, i: int, j: int, len: int) -> int
    decreases len,
{
    if len <= 0 {
        0
    } else {
        col_dot(a, i, j, len - 1) + a[len - 1][i] * a[len - 1][j]
    }
}

proof fn lemma_product_bound(x: i64, y: i64)
    ensures
        -0x4000_0000_0000_0000_0000_0000_0000_0000 <= (x as int) * (y as int)
            <= 0x4000_0000_0000_0000_0000_0000_0000_0000,
{
    assert(-0x4000_0000_0000_0000_0000_0000_0000_0000 <= (x as int) * (y as int)
        <= 0x4000_0000_0000_0000_0000_0000_0000_0000) by (nonlinear_arith)
        requires
            -0x8000_0000_0000_0000 <= x <= 0x7fff_ffff_ffff_ffff,
            -0x8000_0000_0000_0000 <= y <= 0x7fff_ffff_ffff_ffff,
    ;
}

fn zero_row(len: usize) -> (row: Vec<i64>)
    ensures
        row.len() == len,
        forall|k: int| 0 <= k < len ==> #[trigger] row[k] == 0,
{
    let mut row: Vec<i64> = Vec::new();
    let mut k: usize = 0;
    while k < len
        invariant
            k <= len,
            row.len() == k,
            forall|c: int| 0 <= c < k ==> #[trigger] row[c] == 0,
        decreases len - k,
    {
        row.push(0);
        k += 1;
    }
    row
}

fn zero_matrix(rows: usize, cols: usize) -> (mat: Vec<Vec<i64>>)
    ensures
        mat.len() == rows,
        forall|r: int| 0 <= r < rows ==> #[trigger] mat[r].len() == cols,
        forall|r: int, c: int| 0 <= r < rows && 0 <= c < cols ==> #[trigger] mat[r][c] == 0,
{
    let mut mat: Vec<Vec<i64>> = Vec::new();
    let mut r: usize = 0;
    while r < rows
        invariant
            r <= rows,
            mat.len() == r,
            forall|i: int| 0 <= i < r ==> #[trigger] mat[i].len() == cols,
            forall|i: int, c: int| 0 <= i < r && 0 <= c < cols ==> #[trigger] mat[i][c] == 0,
        decreases rows - r,
    {
        mat.push(zero_row(cols));
        r += 1;
    }
    mat
}

/// Build the incidence matrix B₁ (nodes × edges): for an edge e = (u → v),
/// B₁[u][e] = −1 (tail) and B₁[v][e] = +1 (head).
pub fn incidence_matrix(num_nodes: usize, edges: &[Edge]) -> (b1: Vec<Vec<i64>>)
    requires
        edges_within(edges@, num_nodes as int),
    ensures
        b1.len() == num_nodes,
        forall|i: int| 0 <= i < num_nodes ==> #[trigger] b1[i].len() == edges.len(),
        forall|i: int, j: int|
            0 <= i < num_nodes && 0 <= j < edges.len() ==> #[trigger] b1[i][j]
                == incidence_entry(edges@[j], i),
        forall|j: int| 0 <= j < edges.len() ==> #[trigger] b1[edges@[j].to as int][j] == 1,
        forall|j: int|
            0 <= j < edges.len() && edges@[j].from != edges@[j].to ==> #[trigger] b1[edges@[j].from as int][j]
                == -1,
        forall|i: int, j: int|
            0 <= i < num_nodes && 0 <= j < edges.len() && i != edges@[j].from && i != edges@[j].to
                ==> #[trigger] b1[i][j] == 0,
{
    let m = edges.len();
    let mut b1 = zero_matrix(num_nodes, m);
    let mut j: usize = 0;
    while j < m
        invariant
            m == edges.len(),
            edges_within(edges@, num_nodes as int),
            j <= m,
            b1.len() == num_nodes,
            forall|i: int| 0 <= i < num_nodes ==> #[trigger] b1[i].len() == m,
            forall|i: int, c: int|
                0 <= i < num_nodes && 0 <= c < j ==> #[trigger] b1[i][c] == incidence_entry(
                    edges@[c],
                    i,
                ),
            forall|i: int, c: int| 0 <= i < num_nodes && j <= c < m ==> #[trigger] b1[i][c] == 0,
        decreases m - j,
    {
        let e = edges[j];
        assert(edges@[j as int].from < num_nodes && edges@[j as int].to < num_nodes);
        assert(b1[e.from as int].len() == m);
        b1[e.from][j] = -1;
        assert(b1[e.to as int].len() == m);
        b1[e.to][j] = 1;
        j += 1;
    }
    b1
}

proof fn lemma_edge_position_from(edges: Seq<Edge>, u: usize, v: usize, k: int)
    requires
        0 <= k,
    ensures
        match edge_position_from(edges, u, v, k) {
            Some(p) => k <= p < edges.len() && edges[p].from == u && edges[p].to == v && forall|
                q: int,
            | k <= q < p ==> !(#[trigger] edges[q].from == u && edges[q].to == v),
            None => forall|q: int|
                k <= q < edges.len() ==> !(#[trigger] edges[q].from == u && edges[q].to == v),
        },
    decreases edges.len() - k,
{
    if k < edges.len() {
        lemma_edge_position_from(edges, u, v, k + 1);
    }
}

fn find_edge(edges: &[Edge], u: usize, v: usize) -> (r: Option<usize>)
    ensures
        r matches Some(p) ==> p < edges.len(),
        match r {
            Some(p) => edge_position(edges@, u, v) == Some(p as int),
            None => edge_position(edges@, u, v) is None,
        },
{
    let mut k: usize = 0;
    while k < edges.len()
        invariant
            k <= edges.len(),
            edge_position_from(edges@, u, v, 0) == edge_position_from(edges@, u, v, k as int),
        decreases edges.len() - k,
    {
        if edges[k].from == u && edges[k].to == v {
            proof {
                lemma_edge_position_from(edges@, u, v, k as int);
            }
            return Some(k);
        }
        k += 1;
    }
    None
}

/// Write the oriented pair `u → v` with `sign` into column `col` of `b2`.
fn write_pair(b2: &mut Vec<Vec<i64>>, edges: &[Edge], u: usize, v: usize, sign: i64, col: usize)
    requires
        sign == 1 || sign == -1,
        old(b2).len() == edges.len(),
        forall|r: int| 0 <= r < edges.len() ==> col < #[trigger] old(b2)[r].len(),
    ensures
        final(b2).len() == old(b2).len(),
        forall|r: int| 0 <= r < edges.len() ==> #[trigger] final(b2)[r].len() == old(b2)[r].len(),
        forall|r: int, c: int|
            0 <= r < edges.len() && 0 <= c < old(b2)[r].len() ==> #[trigger] final(b2)[r][c] == if c
                == col && written(pair_write(edges@, u, v, sign as int), r) is Some {
                written(pair_write(edges@, u, v, sign as int), r)->0
            } else {
                old(b2)[r][c] as int
            },
{
    match find_edge(edges, u, v) {
        Some(row) => {
            assert(col < old(b2)[row as int].len());
            b2[row][col] = sign;
        },
        None => {
            match find_edge(edges, v, u) {
                Some(row) => {
                    assert(col < old(b2)[row as int].len());
                    b2[row][col] = -sign;
                },
                None => {},
            }
        },
    }
}

/// Build the boundary operator B₂ (edges × triangles). The boundary of a
/// triangle (a, b, c) is (b,c) − (a,c) + (a,b); a pair found only in the
/// opposite direction gets the opposite sign.
pub fn boundary2_matrix(_num_edges: usize, edges: &[Edge], triangles: &[[usize; 3]]) -> (b2: Vec<
    Vec<i64>,
>)
    ensures
        b2.len() == edges.len(),
        forall|r: int| 0 <= r < edges.len() ==> #[trigger] b2[r].len() == triangles.len(),
        forall|r: int, t: int|
            0 <= r < edges.len() && 0 <= t < triangles.len() ==> #[trigger] b2[r][t]
                == boundary_entry(edges@, triangles@[t], r),
{
    let m = edges.len();
    let t = triangles.len();
    let mut b2 = zero_matrix(m, t);
    let mut col: usize = 0;
    while col < t
        invariant
            m == edges.len(),
            t == triangles.len(),
            col <= t,
            b2.len() == m,
            forall|r: int| 0 <= r < m ==> #[trigger] b2[r].len() == t,
            forall|r: int, c: int|
                0 <= r < m && 0 <= c < col ==> #[trigger] b2[r][c] == boundary_entry(
                    edges@,
                    triangles@[c],
                    r,
                ),
            forall|r: int, c: int| 0 <= r < m && col <= c < t ==> #[trigger] b2[r][c] == 0,
        decreases t - col,
    {
        let tri = triangles[col];
        let a = tri[0];
        let b = tri[1];
        let c = tri[2];
        write_pair(&mut b2, edges, b, c, 1, col);
        write_pair(&mut b2, edges, a, c, -1, col);
        write_pair(&mut b2, edges, a, b, 1, col);
        assert forall|r: int, cc: int| 0 <= r < m && 0 <= cc < col + 1 implies #[trigger] b2[r][cc]
            == boundary_entry(edges@, triangles@[cc], r) by {
            if cc == col {
                assert(triangles@[cc] == tri);
            }
        }
        col += 1;
    }
    b2
}


fn row_dot_exec(a: &[Vec<i64>], i: usize, j: usize, len: usize) -> (s: i128)
    requires
        i < a.len(),
        j < a.len(),
        a@[i as int].len() >= len,
        a@[j as int].len() >= len,
        forall|k: int| 0 <= k <= len ==> fits_i64(#[trigger] row_dot(a@, i as int, j as int, k)),
    ensures
        s == row_dot(a@, i as int, j as int, len as int),
        fits_i64(s as int),
{
    let mut sum: i128 = 0;
    let mut k: usize = 0;
    while k < len
        invariant
            i < a.len(),
            j < a.len(),
            a@[i as int].len() >= len,
            a@[j as int].len() >= len,
            forall|q: int| 0 <= q <= len ==> fits_i64(#[trigger] row_dot(a@, i as int, j as int, q)),
            k <= len,
            sum == row_dot(a@, i as int, j as int, k as int),
        decreases len - k,
    {
        let x = a[i][k];
        let y = a[j][k];
        proof {
            lemma_product_bound(x, y);
            assert(fits_i64(row_dot(a@, i as int, j as int, k + 1)));
        }
        sum = sum + (x as i128) * (y as i128);
        k += 1;
    }
    sum
}

fn col_dot_exec(a: &[Vec<i64>], i: usize, j: usize, len: usize) -> (s: i128)
    requires
        len <= a.len(),
        forall|k: int| 0 <= k < len ==> i < #[trigger] a@[k].len() && j < a@[k].len(),
        forall|k: int| 0 <= k <= len ==> fits_i64(#[trigger] col_dot(a@, i as int, j as int, k)),
    ensures
        s == col_dot(a@, i as int, j as int, len as int),
        fits_i64(s as int),
{
    let mut sum: i128 = 0;
    let mut k: usize = 0;
    while k < len
        invariant
            len <= a.len(),
            forall|q: int| 0 <= q < len ==> i < #[trigger] a@[q].len() && j < a@[q].len(),
            forall|q: int| 0 <= q <= len ==> fits_i64(#[trigger] col_dot(a@, i as int, j as int, q)),
            k <= len,
            sum == col_dot(a@, i as int, j as int, k as int),
        decreases len - k,
    {
        assert(i < a@[k as int].len() && j < a@[k as int].len());
        let x = a[k][i];
        let y = a[k][j];
        proof {
            lemma_product_bound(x, y);
            assert(fits_i64(col_dot(a@, i as int, j as int, k + 1)));
        }
        sum = sum + (x as i128) * (y as i128);
        k += 1;
    }
    sum
}

/// What the graph Laplacian needs of B₁: every row as long as the first, and
/// every partial sum of a row product a value of `i64`.
pub open spec fn graph_laplacian_input(b1: Seq<Vec<i64>>) -> bool {
    &&& rows_at_least(b1, width(b1))
    &&& forall|i: int, j: int, k: int|
        0 <= i < b1.len() && 0 <= j < b1.len() && 0 <= k <= width(b1) ==> fits_i64(
            #[trigger] row_dot(b1, i, j, k),
        )
}

/// Compute the graph Laplacian L₀ = B₁ · B₁ᵀ.
pub fn graph_laplacian(b1: &[Vec<i64>]) -> (l: Vec<Vec<i64>>)
    requires
        graph_laplacian_input(b1@),
    ensures
        l.len() == b1.len(),
        forall|i: int| 0 <= i < b1.len() ==> #[trigger] l[i].len() == b1.len(),
        forall|i: int, j: int|
            0 <= i < b1.len() && 0 <= j < b1.len() ==> #[trigger] l[i][j] == row_dot(
                b1@,
                i,
                j,
                width(b1@),
            ),
{
    let n = b1.len();
    let m = if n > 0 {
        b1[0].len()
    } else {
        0
    };
    let mut l: Vec<Vec<i64>> = Vec::new();
    let mut i: usize = 0;
    while i < n
        invariant
            n == b1.len(),
            m == width(b1@),
            graph_laplacian_input(b1@),
            i <= n,
            l.len() == i,
            forall|r: int| 0 <= r < i ==> #[trigger] l[r].len() == n,
            forall|r: int, c: int|
                0 <= r < i && 0 <= c < n ==> #[trigger] l[r][c] == row_dot(b1@, r, c, m as int),
        decreases n - i,
    {
        let mut row: Vec<i64> = Vec::new();
        let mut j: usize = 0;
        while j < n
            invariant
                n == b1.len(),
                m == width(b1@),
                graph_laplacian_input(b1@),
                i < n,
                j <= n,
                row.len() == j,
                forall|c: int| 0 <= c < j ==> #[trigger] row[c] == row_dot(b1@, i as int, c, m as int),
            decreases n - j,
        {
            assert(b1@[i as int].len() >= m && b1@[j as int].len() >= m);
            let s = row_dot_exec(b1, i, j, m);
            row.push(s as i64);
            j += 1;
        }
        l.push(row);
        i += 1;
    }
    l
}

/// What the edge Laplacian needs of B₁: every row as long as the first, and
/// every partial sum of a column product a value of `i64`.
pub open spec fn edge_laplacian_input(b1: Seq<Vec<i64>>) -> bool {
    &&& rows_at_least(b1, width(b1))
    &&& forall|i: int, j: int, k: int|
        0 <= i < width(b1) && 0 <= j < width(b1) && 0 <= k <= b1.len() ==> fits_i64(
            #[trigger] col_dot(b1, i, j, k),
        )
}

/// Compute the edge Laplacian B₁ᵀ · B₁ (up-Laplacian on edges).
pub fn edge_laplacian(b1: &[Vec<i64>]) -> (l: Vec<Vec<i64>>)
    requires
        edge_laplacian_input(b1@),
    ensures
        l.len() == width(b1@),
        forall|i: int| 0 <= i < width(b1@) ==> #[trigger] l[i].len() == width(b1@),
        forall|i: int, j: int|
            0 <= i < width(b1@) && 0 <= j < width(b1@) ==> #[trigger] l[i][j] == col_dot(
                b1@,
                i,
                j,
                b1.len() as int,
            ),
{
    let n = b1.len();
    let m = if n > 0 {
        b1[0].len()
    } else {
        0
    };
    let mut l: Vec<Vec<i64>> = Vec::new();
    let mut i: usize = 0;
    while i < m
        invariant
            n == b1.len(),
            m == width(b1@),
            edge_laplacian_input(b1@),
            i <= m,
            l.len() == i,
            forall|r: int| 0 <= r < i ==> #[trigger] l[r].len() == m,
            forall|r: int, c: int|
                0 <= r < i && 0 <= c < m ==> #[trigger] l[r][c] == col_dot(b1@, r, c, n as int),
        decreases m - i,
    {
        let mut row: Vec<i64> = Vec::new();
        let mut j: usize = 0;
        while j < m
            invariant
                n == b1.len(),
                m == width(b1@),
                edge_laplacian_input(b1@),
                i < m,
                j <= m,
                row.len() == j,
                forall|c: int| 0 <= c < j ==> #[trigger] row[c] == col_dot(b1@, i as int, c, n as int),
            decreases m - j,
        {
            assert forall|k: int| 0 <= k < n implies i < #[trigger] b1@[k].len() && j < b1@[k].len() by {
                assert(b1@[k].len() >= m);
            }
            let s = col_dot_exec(b1, i, j, n);
            row.push(s as i64);
            j += 1;
        }
        l.push(row);
        i += 1;
    }
    l
}

/// Number of edges of the Hodge Laplacian on edges: the width of B₁, or the
/// height of B₂ when B₁ has no rows.
pub open spec fn hodge_edges(b1: Seq<Vec<i64>>, b2: Seq<Vec<i64>>) -> int {
    if b1.len() > 0 {
        b1[0].len() as int
    } else if b2.len() > 0 {
        b2.len() as int
    } else {
        0
    }
}

/// What the Hodge Laplacian needs: the rows it reads are long enough, and every
/// partial sum that it forms, and every entry, is a value of `i64`.
pub open spec fn hodge_laplacian_input(b1: Seq<Vec<i64>>, b2: Seq<Vec<i64>>) -> bool {
    let m = hodge_edges(b1, b2);
    let t = width(b2);
    &&& rows_at_least(b1, m)
    &&& t > 0 ==> b2.len() >= m && forall|i: int| 0 <= i < m ==> #[trigger] b2[i].len() >= t
    &&& forall|i: int, j: int, k: int|
        0 <= i < m && 0 <= j < m && 0 <= k <= b1.len() ==> fits_i64(#[trigger] col_dot(b1, i, j, k))
    &&& forall|i: int, j: int, k: int|
        0 <= i < m && 0 <= j < m && 0 <= k <= t ==> fits_i64(#[trigger] row_dot(b2, i, j, k))
    &&& forall|i: int, j: int|
        0 <= i < m && 0 <= j < m ==> fits_i64(
            #[trigger] col_dot(b1, i, j, b1.len() as int) + row_dot(b2, i, j, t),
        )
}

/// The entry (i, j) of the Hodge Laplacian L₁ = B₁ᵀB₁ + B₂B₂ᵀ.
pub open spec fn hodge_entry(b1: Seq<Vec<i64>>, b2: Seq<Vec<i64>>, i: int, j: int) -> int {
    col_dot(b1, i, j, b1.len() as int) + row_dot(b2, i, j, width(b2))
}

/// Full 1-Laplacian L₁ = B₁ᵀB₁ + B₂B₂ᵀ (Hodge Laplacian on edges).
pub fn hodge_laplacian_1(b1: &[Vec<i64>], b2: &[Vec<i64>]) -> (l: Vec<Vec<i64>>)
    requires
        hodge_laplacian_input(b1@, b2@),
    ensures
        l.len() == hodge_edges(b1@, b2@),
        forall|i: int| 0 <= i < hodge_edges(b1@, b2@) ==> #[trigger] l[i].len() == hodge_edges(
            b1@,
            b2@,
        ),
        forall|i: int, j: int|
            0 <= i < hodge_edges(b1@, b2@) && 0 <= j < hodge_edges(b1@, b2@) ==> #[trigger] l[i][j]
                == hodge_entry(b1@, b2@, i, j),
        forall|i: int, j: int|
            0 <= i < hodge_edges(b1@, b2@) && 0 <= j < hodge_edges(b1@, b2@) ==> #[trigger] l[i][j]
                == col_dot(b1@, i, j, b1.len() as int) + row_dot(b2@, i, j, width(b2@)),
{
    let m = if b1.len() > 0 {
        b1[0].len()
    } else if b2.len() > 0 {
        b2.len()
    } else {
        0
    };
    let n = b1.len();
    let t = if b2.len() > 0 {
        b2[0].len()
    } else {
        0
    };
    let mut l: Vec<Vec<i64>> = Vec::new();
    let mut i: usize = 0;
    while i < m
        invariant
            m == hodge_edges(b1@, b2@),
            n == b1.len(),
            t == width(b2@),
            hodge_laplacian_input(b1@, b2@),
            i <= m,
            l.len() == i,
            forall|r: int| 0 <= r < i ==> #[trigger] l[r].len() == m,
            forall|r: int, c: int|
                0 <= r < i && 0 <= c < m ==> #[trigger] l[r][c] == hodge_entry(b1@, b2@, r, c),
        decreases m - i,
    {
        let mut row: Vec<i64> = Vec::new();
        let mut j: usize = 0;
        while j < m
            invariant
                m == hodge_edges(b1@, b2@),
                n == b1.len(),
                t == width(b2@),
                hodge_laplacian_input(b1@, b2@),
                i < m,
                j <= m,
                row.len() == j,
                forall|c: int| 0 <= c < j ==> #[trigger] row[c] == hodge_entry(b1@, b2@, i as int, c),
            decreases m - j,
        {
            assert forall|k: int| 0 <= k < n implies i < #[trigger] b1@[k].len() && j < b1@[k].len() by {
                assert(b1@[k].len() >= m);
            }
            let up = col_dot_exec(b1, i, j, n);
            let down = if t > 0 {
                assert(b2@[i as int].len() >= t && b2@[j as int].len() >= t);
                row_dot_exec(b2, i, j, t)
            } else {
                0
            };
            assert(fits_i64(col_dot(b1@, i as int, j as int, n as int) + row_dot(
                b2@,
                i as int,
                j as int,
                t as int,
            )));
            row.push((up + down) as i64);
            j += 1;
        }
        l.push(row);
        i += 1;
    }
    l
}


// ---------------------------------------------------------------------------
// Laws of the operators
// ---------------------------------------------------------------------------

/// Some edge of `edges` runs from `u` to `v`.
pub open spec fn has_edge(edges: Seq<Edge>, u: int, v: int) -> bool {
    exists|j: int| 0 <= j < edges.len() && #[trigger] edges[j].from == u && edges[j].to == v
}

/// Some edge of `edges` joins `u` and `v`, in either direction.
pub open spec fn adjacent(edges: Seq<Edge>, u: int, v: int) -> bool {
    has_edge(edges, u, v) || has_edge(edges, v, u)
}

/// The triangle `tri` has three distinct corners, each two of them joined by an edge.
pub open spec fn spanned(edges: Seq<Edge>, tri: [usize; 3]) -> bool {
    &&& tri[0] != tri[1]
    &&& tri[0] != tri[2]
    &&& tri[1] != tri[2]
    &&& adjacent(edges, tri[0] as int, tri[1] as int)
    &&& adjacent(edges, tri[0] as int, tri[2] as int)
    &&& adjacent(edges, tri[1] as int, tri[2] as int)
}

/// Σ_{j < k} B₁[i][j]·B₂[j][t] for the triangle `tri` in column t: an entry of B₁ · B₂.
pub open spec fn boundary_product(edges: Seq<Edge>, tri: [usize; 3], i: int, k: int) -> int
    decreases k,
{
    if k <= 0 {
        0
    } else {
        boundary_product(edges, tri, i, k - 1) + incidence_entry(edges[k - 1], i) * boundary_entry(
            edges,
            tri,
            k - 1,
        )
    }
}

/// What the write `w` adds to the product B₁ · B₂ in row `i` over the first `k` edges.
spec fn write_contribution(edges: Seq<Edge>, w: Option<(int, int)>, i: int, k: int) -> int {
    match w {
        Some(rs) => if rs.0 < k {
            rs.1 * incidence_entry(edges[rs.0], i)
        } else {
            0
        },
        None => 0,
    }
}

proof fn lemma_pair_write_found(edges: Seq<Edge>, u: usize, v: usize, sign: int)
    requires
        u != v,
        sign == 1 || sign == -1,
        adjacent(edges, u as int, v as int),
    ensures
        pair_write(edges, u, v, sign) matches Some(rs) && 0 <= rs.0 < edges.len() && ({
            let e = edges[rs.0];
            (e.from == u && e.to == v && rs.1 == sign) || (e.from == v && e.to == u && rs.1
                == -sign)
        }),
        forall|i: int|
            #![trigger write_contribution(edges, pair_write(edges, u, v, sign), i, edges.len() as int)]
            write_contribution(edges, pair_write(edges, u, v, sign), i, edges.len() as int) == (if v
                == i {
                sign
            } else {
                0
            }) - (if u == i {
                sign
            } else {
                0
            }),
{
    lemma_edge_position_from(edges, u, v, 0);
    lemma_edge_position_from(edges, v, u, 0);
    if edge_position(edges, u, v) is None {
        if has_edge(edges, u as int, v as int) {
            let j = choose|j: int|
                0 <= j < edges.len() && #[trigger] edges[j].from == u && edges[j].to == v;
            assert(!(edges[j].from == u && edges[j].to == v));
        }
        if edge_position(edges, v, u) is None {
            let j = choose|j: int|
                0 <= j < edges.len() && #[trigger] edges[j].from == v && edges[j].to == u;
            assert(!(edges[j].from == v && edges[j].to == u));
        }
    }
}

proof fn lemma_boundary_product_prefix(
    edges: Seq<Edge>,
    tri: [usize; 3],
    i: int,
    k: int,
    w1: Option<(int, int)>,
    w2: Option<(int, int)>,
    w3: Option<(int, int)>,
)
    requires
        0 <= k <= edges.len(),
        w1 == pair_write(edges, tri[1], tri[2], 1),
        w2 == pair_write(edges, tri[0], tri[2], -1),
        w3 == pair_write(edges, tri[0], tri[1], 1),
        w1 matches Some(a) && w2 matches Some(b) && w3 matches Some(c) && a.0 != b.0 && a.0 != c.0
            && b.0 != c.0 && a.0 >= 0 && b.0 >= 0 && c.0 >= 0,
    ensures
        boundary_product(edges, tri, i, k) == write_contribution(edges, w1, i, k)
            + write_contribution(edges, w2, i, k) + write_contribution(edges, w3, i, k),
    decreases k,
{
    if k > 0 {
        lemma_boundary_product_prefix(edges, tri, i, k - 1, w1, w2, w3);
        let r = k - 1;
        let x = incidence_entry(edges[r], i);
        let (p1, p2, p3) = (w1->0, w2->0, w3->0);
        assert(p1.0 != p2.0 && p1.0 != p3.0 && p2.0 != p3.0);
        assert(boundary_entry(edges, tri, r) == last_written(w1, w2, w3, r));
        assert(boundary_product(edges, tri, i, k) == boundary_product(edges, tri, i, r) + x
            * boundary_entry(edges, tri, r));
        assert(write_contribution(edges, w1, i, k) == write_contribution(edges, w1, i, r) + if p1.0
            == r {
            p1.1 * x
        } else {
            0
        });
        assert(write_contribution(edges, w2, i, k) == write_contribution(edges, w2, i, r) + if p2.0
            == r {
            p2.1 * x
        } else {
            0
        });
        assert(write_contribution(edges, w3, i, k) == write_contribution(edges, w3, i, r) + if p3.0
            == r {
            p3.1 * x
        } else {
            0
        });
        if r == p3.0 {
            assert(boundary_entry(edges, tri, r) == p3.1);
            assert(x * p3.1 == p3.1 * x) by (nonlinear_arith);
        } else if r == p2.0 {
            assert(boundary_entry(edges, tri, r) == p2.1);
            assert(x * p2.1 == p2.1 * x) by (nonlinear_arith);
        } else if r == p1.0 {
            assert(boundary_entry(edges, tri, r) == p1.1);
            assert(x * p1.1 == p1.1 * x) by (nonlinear_arith);
        } else {
            assert(boundary_entry(edges, tri, r) == 0);
        }
    }
}

/// The boundary of a boundary vanishes: B₁ · B₂ = 0. For every triangle whose
/// corners are distinct and pairwise joined by edges, and every node `i`, the
/// entry of B₁ · B₂ in row `i` and the triangle's column is 0.
pub proof fn lemma_boundary_of_boundary(edges: Seq<Edge>, tri: [usize; 3], i: int)
    requires
        spanned(edges, tri),
    ensures
        boundary_product(edges, tri, i, edges.len() as int) == 0,
{
    let (a, b, c) = (tri[0], tri[1], tri[2]);
    let w1 = pair_write(edges, b, c, 1);
    let w2 = pair_write(edges, a, c, -1);
    let w3 = pair_write(edges, a, b, 1);
    lemma_pair_write_found(edges, b, c, 1);
    lemma_pair_write_found(edges, a, c, -1);
    lemma_pair_write_found(edges, a, b, 1);
    lemma_boundary_product_prefix(edges, tri, i, edges.len() as int, w1, w2, w3);
    let n = edges.len() as int;
    assert(write_contribution(edges, w1, i, n) == (if c == i { 1int } else { 0 }) - (if b == i { 1int } else { 0 }));
    assert(write_contribution(edges, w2, i, n) == (if c == i { -1int } else { 0 }) - (if a == i { -1int } else { 0 }));
    assert(write_contribution(edges, w3, i, n) == (if b == i { 1int } else { 0 }) - (if a == i { 1int } else { 0 }));
}

/// +1 when the edge `e` runs u → v, −1 when it runs v → u, and 0 otherwise.
pub open spec fn oriented(e: Edge, u: int, v: int) -> int {
    if e.from == u && e.to == v {
        1
    } else if e.from == v && e.to == u {
        -1
    } else {
        0
    }
}

/// The row `r` is where the pair u → v is written: the first edge that runs
/// u → v, or, when no edge does, the first that runs v → u.
pub open spec fn first_carrier(edges: Seq<Edge>, r: int, u: int, v: int) -> bool {
    &&& forall|q: int|
        0 <= q < edges.len() && #[trigger] oriented(edges[q], u, v) == 1 ==> oriented(edges[r], u, v) == 1 && r
            <= q
    &&& forall|q: int| 0 <= q < r ==> #[trigger] oriented(edges[q], u, v) != oriented(edges[r], u, v)
}

/// The rows `r1`, `r2`, `r3` carry the oriented boundary (b, c) + (c, a) + (a, b)
/// of the triangle `tri` = (a, b, c) in its column of B₂: they are distinct
/// edges joining b and c, c and a, a and b, each with +1 when it points along
/// that orientation and −1 when it points against it, each the first edge
/// that carries its pair, and every other row is 0.
pub open spec fn boundary_carried_by(edges: Seq<Edge>, tri: [usize; 3], r1: int, r2: int, r3: int) -> bool {
    let a = tri[0] as int;
    let b = tri[1] as int;
    let c = tri[2] as int;
    &&& 0 <= r1 < edges.len() && 0 <= r2 < edges.len() && 0 <= r3 < edges.len()
    &&& r1 != r2 && r1 != r3 && r2 != r3
    &&& oriented(edges[r1], b, c) != 0 && boundary_entry(edges, tri, r1) == oriented(edges[r1], b, c)
    &&& oriented(edges[r2], c, a) != 0 && boundary_entry(edges, tri, r2) == oriented(edges[r2], c, a)
    &&& oriented(edges[r3], a, b) != 0 && boundary_entry(edges, tri, r3) == oriented(edges[r3], a, b)
    &&& first_carrier(edges, r1, b, c) && first_carrier(edges, r2, a, c) && first_carrier(edges, r3, a, b)
    &&& forall|r: int|
        0 <= r < edges.len() && r != r1 && r != r2 && r != r3 ==> #[trigger] boundary_entry(edges, tri, r) == 0
}

/// The column of B₂ for a triangle (a, b, c) whose corners are distinct and
/// pairwise joined by edges is its oriented boundary: three distinct edges,
/// one joining each pair, carry +1 where they point b → c, c → a or a → b and
/// −1 where they point the other way, each the first edge that runs along its
/// pair as written, (b, c), (a, c), (a, b), or else the first that runs against
/// it; all other entries are 0.
pub proof fn lemma_boundary_column(edges: Seq<Edge>, tri: [usize; 3])
    requires
        spanned(edges, tri),
    ensures
        exists|r1: int, r2: int, r3: int| #[trigger] boundary_carried_by(edges, tri, r1, r2, r3),
{
    let (a, b, c) = (tri[0], tri[1], tri[2]);
    lemma_pair_write_found(edges, b, c, 1);
    lemma_pair_write_found(edges, a, c, -1);
    lemma_pair_write_found(edges, a, b, 1);
    lemma_edge_position_from(edges, b, c, 0);
    lemma_edge_position_from(edges, c, b, 0);
    lemma_edge_position_from(edges, a, c, 0);
    lemma_edge_position_from(edges, c, a, 0);
    lemma_edge_position_from(edges, a, b, 0);
    lemma_edge_position_from(edges, b, a, 0);
    let w1 = pair_write(edges, b, c, 1)->0;
    let w2 = pair_write(edges, a, c, -1)->0;
    let w3 = pair_write(edges, a, b, 1)->0;
    assert(w1.0 != w2.0 && w1.0 != w3.0 && w2.0 != w3.0);
    assert(boundary_entry(edges, tri, w3.0) == w3.1);
    assert(boundary_entry(edges, tri, w2.0) == w2.1);
    assert(boundary_entry(edges, tri, w1.0) == w1.1);
    assert(boundary_carried_by(edges, tri, w1.0, w2.0, w3.0));
}

/// (B₂ᵀ · flow) for the triangle `tri` over the first `k` edges: the curl of
/// the edge flow `flow` around the triangle.
pub open spec fn curl_at(edges: Seq<Edge>, tri: [usize; 3], flow: Seq<int>, k: int) -> int
    decreases k,
{
    if k <= 0 {
        0
    } else {
        curl_at(edges, tri, flow, k - 1) + boundary_entry(edges, tri, k - 1) * flow[k - 1]
    }
}

/// Σ_{i < n} B₁[i] for the edge `e` times f[i]: the entry of B₁ᵀ · f on the edge `e`.
pub open spec fn potential_drop(e: Edge, f: Seq<int>, n: int) -> int
    decreases n,
{
    if n <= 0 {
        0
    } else {
        potential_drop(e, f, n - 1) + incidence_entry(e, n - 1) * f[n - 1]
    }
}

/// The gradient flow B₁ᵀ · f of the potential `f` on `n` nodes.
pub open spec fn gradient_flow(edges: Seq<Edge>, f: Seq<int>, n: int) -> Seq<int> {
    Seq::new(edges.len(), |j: int| potential_drop(edges[j], f, n))
}

proof fn lemma_potential_drop(e: Edge, f: Seq<int>, n: int)
    requires
        e.from != e.to,
        0 <= n,
    ensures
        potential_drop(e, f, n) == (if e.to < n {
            f[e.to as int]
        } else {
            0
        }) - (if e.from < n {
            f[e.from as int]
        } else {
            0
        }),
    decreases n,
{
    if n > 0 {
        lemma_potential_drop(e, f, n - 1);
    }
}

/// What the write `w` adds to the curl of `flow` over the first `k` edges.
spec fn flow_contribution(w: Option<(int, int)>, flow: Seq<int>, k: int) -> int {
    match w {
        Some(rs) => if rs.0 < k {
            rs.1 * flow[rs.0]
        } else {
            0
        },
        None => 0,
    }
}

proof fn lemma_curl_prefix(
    edges: Seq<Edge>,
    tri: [usize; 3],
    flow: Seq<int>,
    k: int,
    w1: Option<(int, int)>,
    w2: Option<(int, int)>,
    w3: Option<(int, int)>,
)
    requires
        0 <= k <= edges.len(),
        w1 == pair_write(edges, tri[1], tri[2], 1),
        w2 == pair_write(edges, tri[0], tri[2], -1),
        w3 == pair_write(edges, tri[0], tri[1], 1),
        w1 matches Some(a) && w2 matches Some(b) && w3 matches Some(c) && a.0 != b.0 && a.0 != c.0
            && b.0 != c.0 && a.0 >= 0 && b.0 >= 0 && c.0 >= 0,
    ensures
        curl_at(edges, tri, flow, k) == flow_contribution(w1, flow, k) + flow_contribution(w2, flow, k)
            + flow_contribution(w3, flow, k),
    decreases k,
{
    if k > 0 {
        lemma_curl_prefix(edges, tri, flow, k - 1, w1, w2, w3);
        let r = k - 1;
        let x = flow[r];
        let (p1, p2, p3) = (w1->0, w2->0, w3->0);
        assert(boundary_entry(edges, tri, r) == last_written(w1, w2, w3, r));
        if r == p3.0 {
            assert(boundary_entry(edges, tri, r) == p3.1);
        } else if r == p2.0 {
            assert(boundary_entry(edges, tri, r) == p2.1);
        } else if r == p1.0 {
            assert(boundary_entry(edges, tri, r) == p1.1);
        } else {
            assert(boundary_entry(edges, tri, r) == 0);
        }
    }
}

/// The write of the pair `u → v` with `sign` adds sign·(f[v] − f[u]) to the curl of
/// the gradient flow of `f`, whichever way the edge that carries the pair points.
proof fn lemma_pair_gradient(edges: Seq<Edge>, u: usize, v: usize, sign: int, f: Seq<int>, n: int)
    requires
        u != v,
        sign == 1 || sign == -1,
        adjacent(edges, u as int, v as int),
        edges_within(edges, n),
    ensures
        flow_contribution(pair_write(edges, u, v, sign), gradient_flow(edges, f, n), edges.len() as int)
            == sign * (f[v as int] - f[u as int]),
{
    lemma_pair_write_found(edges, u, v, sign);
    let rs = pair_write(edges, u, v, sign)->0;
    let e = edges[rs.0];
    assert(e.from < n && e.to < n);
    lemma_potential_drop(e, f, n);
    assert(gradient_flow(edges, f, n)[rs.0] == potential_drop(e, f, n));
    if e.from == u {
        assert(rs.1 * (f[e.to as int] - f[e.from as int]) == sign * (f[v as int] - f[u as int]));
    } else {
        assert(rs.1 * (f[e.to as int] - f[e.from as int]) == sign * (f[v as int] - f[u as int])) by (nonlinear_arith)
            requires
                rs.1 == -sign,
                e.to == u,
                e.from == v,
        ;
    }
}

/// A gradient flow is curl-free: for every potential `f` on the nodes, the
/// gradient flow B₁ᵀ · f has curl B₂ᵀ · (B₁ᵀ · f) = 0 around every triangle whose
/// corners are distinct and pairwise joined by edges.
pub proof fn lemma_gradient_is_curl_free(edges: Seq<Edge>, tri: [usize; 3], f: Seq<int>, n: int)
    requires
        spanned(edges, tri),
        edges_within(edges, n),
        f.len() == n,
    ensures
        curl_at(edges, tri, gradient_flow(edges, f, n), edges.len() as int) == 0,
{
    let (a, b, c) = (tri[0], tri[1], tri[2]);
    let g = gradient_flow(edges, f, n);
    lemma_pair_write_found(edges, b, c, 1);
    lemma_pair_write_found(edges, a, c, -1);
    lemma_pair_write_found(edges, a, b, 1);
    lemma_pair_gradient(edges, b, c, 1, f, n);
    lemma_pair_gradient(edges, a, c, -1, f, n);
    lemma_pair_gradient(edges, a, b, 1, f, n);
    lemma_curl_prefix(
        edges,
        tri,
        g,
        edges.len() as int,
        pair_write(edges, b, c, 1),
        pair_write(edges, a, c, -1),
        pair_write(edges, a, b, 1),
    );
}

/// Σ_{i < n} B₁[i] for the edge `e` times `x`: a column sum of B₁, scaled.
pub open spec fn scaled_column_sum(e: Edge, x: int, n: int) -> int
    decreases n,
{
    if n <= 0 {
        0
    } else {
        scaled_column_sum(e, x, n - 1) + incidence_entry(e, n - 1) * x
    }
}

proof fn lemma_scaled_column_sum(e: Edge, x: int, n: int)
    requires
        e.from != e.to,
        0 <= n,
    ensures
        scaled_column_sum(e, x, n) == (if e.to < n {
            x
        } else {
            0
        }) - (if e.from < n {
            x
        } else {
            0
        }),
    decreases n,
{
    if n > 0 {
        lemma_scaled_column_sum(e, x, n - 1);
    }
}

/// (B₁ · flow)[i] over the first `k` edges: the divergence of an integer flow at node `i`.
pub open spec fn divergence_at(edges: Seq<Edge>, flow: Seq<int>, i: int, k: int) -> int
    decreases k,
{
    if k <= 0 {
        0
    } else {
        divergence_at(edges, flow, i, k - 1) + incidence_entry(edges[k - 1], i) * flow[k - 1]
    }
}

/// Σ_{i < n} (B₁ · flow)[i] over the first `k` edges.
pub open spec fn total_divergence(edges: Seq<Edge>, flow: Seq<int>, n: int, k: int) -> int
    decreases n,
{
    if n <= 0 {
        0
    } else {
        total_divergence(edges, flow, n - 1, k) + divergence_at(edges, flow, n - 1, k)
    }
}

proof fn lemma_total_divergence_step(edges: Seq<Edge>, flow: Seq<int>, n: int, k: int)
    requires
        0 <= k < edges.len(),
        0 <= n,
    ensures
        total_divergence(edges, flow, n, k + 1) == total_divergence(edges, flow, n, k)
            + scaled_column_sum(edges[k], flow[k], n),
    decreases n,
{
    if n > 0 {
        lemma_total_divergence_step(edges, flow, n - 1, k);
    }
}

proof fn lemma_total_divergence_prefix(edges: Seq<Edge>, flow: Seq<int>, n: int, k: int)
    requires
        0 <= k <= edges.len(),
        0 <= n,
        edges_within(edges, n),
        forall|j: int| 0 <= j < edges.len() ==> #[trigger] edges[j].from != edges[j].to,
    ensures
        total_divergence(edges, flow, n, k) == 0,
    decreases k,
{
    if k == 0 {
        lemma_total_divergence_zero(edges, flow, n);
    } else {
        lemma_total_divergence_prefix(edges, flow, n, k - 1);
        lemma_total_divergence_step(edges, flow, n, k - 1);
        assert(edges[k - 1].from != edges[k - 1].to);
        lemma_scaled_column_sum(edges[k - 1], flow[k - 1], n);
    }
}

proof fn lemma_total_divergence_zero(edges: Seq<Edge>, flow: Seq<int>, n: int)
    ensures
        total_divergence(edges, flow, n, 0) == 0,
    decreases n,
{
    if n > 0 {
        lemma_total_divergence_zero(edges, flow, n - 1);
    }
}

/// Flow conservation: on a network without self-loops, whatever integer flow
/// runs on the edges, the divergences of all nodes sum to zero.
pub proof fn lemma_divergence_sums_to_zero(edges: Seq<Edge>, flow: Seq<int>, n: int)
    requires
        edges_within(edges, n),
        forall|j: int| 0 <= j < edges.len() ==> #[trigger] edges[j].from != edges[j].to,
        flow.len() == edges.len(),
    ensures
        total_divergence(edges, flow, n, edges.len() as int) == 0,
{
    if n >= 0 {
        lemma_total_divergence_prefix(edges, flow, n, edges.len() as int);
    }
}

/// (B₂ · beta)[j] over the first `t` triangles of `tris`: the flow on edge `j`
/// that the triangle weights `beta` circulate.
pub open spec fn circulation_at(edges: Seq<Edge>, tris: Seq<[usize; 3]>, beta: Seq<int>, j: int, t: int) -> int
    decreases t,
{
    if t <= 0 {
        0
    } else {
        circulation_at(edges, tris, beta, j, t - 1) + boundary_entry(edges, tris[t - 1], j) * beta[t - 1]
    }
}

/// The curl flow B₂ · beta on the edges, made by the first `t` triangles of `tris`.
pub open spec fn circulation(edges: Seq<Edge>, tris: Seq<[usize; 3]>, beta: Seq<int>, t: int) -> Seq<int> {
    Seq::new(edges.len(), |j: int| circulation_at(edges, tris, beta, j, t))
}

proof fn lemma_divergence_of_zero(edges: Seq<Edge>, tris: Seq<[usize; 3]>, beta: Seq<int>, i: int, k: int)
    requires
        0 <= k <= edges.len(),
    ensures
        divergence_at(edges, circulation(edges, tris, beta, 0), i, k) == 0,
    decreases k,
{
    if k > 0 {
        lemma_divergence_of_zero(edges, tris, beta, i, k - 1);
    }
}

proof fn lemma_divergence_adds_triangle(
    edges: Seq<Edge>,
    tris: Seq<[usize; 3]>,
    beta: Seq<int>,
    i: int,
    t: int,
    k: int,
)
    requires
        0 <= t,
        0 <= k <= edges.len(),
    ensures
        divergence_at(edges, circulation(edges, tris, beta, t + 1), i, k) == divergence_at(
            edges,
            circulation(edges, tris, beta, t),
            i,
            k,
        ) + beta[t] * boundary_product(edges, tris[t], i, k),
    decreases k,
{
    if k > 0 {
        lemma_divergence_adds_triangle(edges, tris, beta, i, t, k - 1);
        let j = k - 1;
        let x = incidence_entry(edges[j], i);
        let before = circulation_at(edges, tris, beta, j, t);
        let b2 = boundary_entry(edges, tris[t], j);
        let w = beta[t];
        assert(circulation(edges, tris, beta, t + 1)[j] == before + b2 * w);
        assert(circulation(edges, tris, beta, t)[j] == before);
        let d_new = divergence_at(edges, circulation(edges, tris, beta, t + 1), i, j);
        let d_old = divergence_at(edges, circulation(edges, tris, beta, t), i, j);
        let bp = boundary_product(edges, tris[t], i, j);
        assert(d_new + x * (before + b2 * w) == d_old + x * before + w * (bp + x * b2)) by (nonlinear_arith)
            requires
                d_new == d_old + w * bp,
        ;
    }
}

proof fn lemma_circulation_divergence(edges: Seq<Edge>, tris: Seq<[usize; 3]>, beta: Seq<int>, i: int, t: int)
    requires
        0 <= t <= tris.len(),
        forall|s: int| 0 <= s < tris.len() ==> spanned(edges, #[trigger] tris[s]),
    ensures
        divergence_at(edges, circulation(edges, tris, beta, t), i, edges.len() as int) == 0,
    decreases t,
{
    if t == 0 {
        lemma_divergence_of_zero(edges, tris, beta, i, edges.len() as int);
    } else {
        lemma_circulation_divergence(edges, tris, beta, i, t - 1);
        lemma_divergence_adds_triangle(edges, tris, beta, i, t - 1, edges.len() as int);
        assert(spanned(edges, tris[t - 1]));
        lemma_boundary_of_boundary(edges, tris[t - 1], i);
        assert(beta[t - 1] * boundary_product(edges, tris[t - 1], i, edges.len() as int) == 0);
    }
}

/// A curl flow is divergence-free: whatever integer weights `beta` the triangles
/// carry, the flow B₂ · beta that they circulate on the edges has divergence
/// B₁ · (B₂ · beta) = 0 at every node, when every triangle listed has distinct
/// corners pairwise joined by edges.
pub proof fn lemma_curl_flow_is_divergence_free(edges: Seq<Edge>, tris: Seq<[usize; 3]>, beta: Seq<int>, i: int)
    requires
        forall|s: int| 0 <= s < tris.len() ==> spanned(edges, #[trigger] tris[s]),
        beta.len() == tris.len(),
    ensures
        divergence_at(edges, circulation(edges, tris, beta, tris.len() as int), i, edges.len() as int) == 0,
{
    lemma_circulation_divergence(edges, tris, beta, i, tris.len() as int);
}

/// Σ_{j < k} x[j]·y[j]: the inner product of two edge flows over the first `k` edges.
pub open spec fn flow_inner(x: Seq<int>, y: Seq<int>, k: int) -> int
    decreases k,
{
    if k <= 0 {
        0
    } else {
        flow_inner(x, y, k - 1) + x[k - 1] * y[k - 1]
    }
}

/// Σ_{i < n} f[i]·(B₁ · x)[i], with B₁ · x over the first `k` edges.
pub open spec fn potential_pairing(edges: Seq<Edge>, f: Seq<int>, n: int, x: Seq<int>, k: int) -> int
    decreases n,
{
    if n <= 0 {
        0
    } else {
        potential_pairing(edges, f, n - 1, x, k) + f[n - 1] * divergence_at(edges, x, n - 1, k)
    }
}

proof fn lemma_gradient_inner_zero(edges: Seq<Edge>, f: Seq<int>, x: Seq<int>, k: int)
    requires
        0 <= k <= edges.len(),
    ensures
        flow_inner(gradient_flow(edges, f, 0), x, k) == 0,
    decreases k,
{
    if k > 0 {
        lemma_gradient_inner_zero(edges, f, x, k - 1);
    }
}

proof fn lemma_gradient_inner_node(edges: Seq<Edge>, f: Seq<int>, n: int, x: Seq<int>, k: int)
    requires
        0 < n,
        0 <= k <= edges.len(),
    ensures
        flow_inner(gradient_flow(edges, f, n), x, k) == flow_inner(gradient_flow(edges, f, n - 1), x, k)
            + f[n - 1] * divergence_at(edges, x, n - 1, k),
    decreases k,
{
    if k > 0 {
        lemma_gradient_inner_node(edges, f, n, x, k - 1);
        let j = k - 1;
        let g_new = gradient_flow(edges, f, n)[j];
        let g_old = gradient_flow(edges, f, n - 1)[j];
        let inc = incidence_entry(edges[j], n - 1);
        let fv = f[n - 1];
        let xv = x[j];
        assert(g_new == g_old + inc * fv);
        let a_new = flow_inner(gradient_flow(edges, f, n), x, j);
        let a_old = flow_inner(gradient_flow(edges, f, n - 1), x, j);
        let d = divergence_at(edges, x, n - 1, j);
        assert(a_new + g_new * xv == a_old + g_old * xv + fv * (d + inc * xv)) by (nonlinear_arith)
            requires
                a_new == a_old + fv * d,
                g_new == g_old + inc * fv,
        ;
    }
}

/// B₁ᵀ is the adjoint of B₁: for every potential `f` on `n` nodes and every
/// edge flow `x`, ⟨B₁ᵀ f, x⟩ = ⟨f, B₁ x⟩.
pub proof fn lemma_incidence_adjoint(edges: Seq<Edge>, f: Seq<int>, n: int, x: Seq<int>)
    requires
        0 <= n,
    ensures
        flow_inner(gradient_flow(edges, f, n), x, edges.len() as int) == potential_pairing(
            edges,
            f,
            n,
            x,
            edges.len() as int,
        ),
    decreases n,
{
    if n == 0 {
        lemma_gradient_inner_zero(edges, f, x, edges.len() as int);
    } else {
        lemma_incidence_adjoint(edges, f, n - 1, x);
        lemma_gradient_inner_node(edges, f, n, x, edges.len() as int);
    }
}

proof fn lemma_pairing_of_divergence_free(edges: Seq<Edge>, f: Seq<int>, n: int, x: Seq<int>)
    requires
        forall|i: int| 0 <= i < n ==> #[trigger] divergence_at(edges, x, i, edges.len() as int) == 0,
    ensures
        potential_pairing(edges, f, n, x, edges.len() as int) == 0,
    decreases n,
{
    if n > 0 {
        lemma_pairing_of_divergence_free(edges, f, n - 1, x);
        assert(divergence_at(edges, x, n - 1, edges.len() as int) == 0);
        assert(f[n - 1] * divergence_at(edges, x, n - 1, edges.len() as int) == 0);
    }
}

/// Gradient and curl flows are orthogonal: for every potential `f` on the nodes
/// and all integer triangle weights `beta`, ⟨B₁ᵀ f, B₂ beta⟩ = 0, when every
/// triangle listed has distinct corners pairwise joined by edges.
pub proof fn lemma_gradient_orthogonal_to_curl(
    edges: Seq<Edge>,
    f: Seq<int>,
    n: int,
    tris: Seq<[usize; 3]>,
    beta: Seq<int>,
)
    requires
        f.len() == n,
        forall|s: int| 0 <= s < tris.len() ==> spanned(edges, #[trigger] tris[s]),
        beta.len() == tris.len(),
    ensures
        flow_inner(
            gradient_flow(edges, f, n),
            circulation(edges, tris, beta, tris.len() as int),
            edges.len() as int,
        ) == 0,
{
    let c = circulation(edges, tris, beta, tris.len() as int);
    lemma_incidence_adjoint(edges, f, n, c);
    assert forall|i: int| #[trigger] divergence_at(edges, c, i, edges.len() as int) == 0 by {
        lemma_curl_flow_is_divergence_free(edges, tris, beta, i);
    }
    lemma_pairing_of_divergence_free(edges, f, n, c);
}

proof fn lemma_circulation_inner_zero(edges: Seq<Edge>, tris: Seq<[usize; 3]>, beta: Seq<int>, h: Seq<int>, k: int)
    requires
        0 <= k <= edges.len(),
    ensures
        flow_inner(circulation(edges, tris, beta, 0), h, k) == 0,
    decreases k,
{
    if k > 0 {
        lemma_circulation_inner_zero(edges, tris, beta, h, k - 1);
    }
}

proof fn lemma_circulation_inner_adds_triangle(
    edges: Seq<Edge>,
    tris: Seq<[usize; 3]>,
    beta: Seq<int>,
    h: Seq<int>,
    t: int,
    k: int,
)
    requires
        0 <= t,
        0 <= k <= edges.len(),
    ensures
        flow_inner(circulation(edges, tris, beta, t + 1), h, k) == flow_inner(
            circulation(edges, tris, beta, t),
            h,
            k,
        ) + beta[t] * curl_at(edges, tris[t], h, k),
    decreases k,
{
    if k > 0 {
        lemma_circulation_inner_adds_triangle(edges, tris, beta, h, t, k - 1);
        let j = k - 1;
        let before = circulation_at(edges, tris, beta, j, t);
        let b2 = boundary_entry(edges, tris[t], j);
        let w = beta[t];
        let hv = h[j];
        assert(circulation(edges, tris, beta, t + 1)[j] == before + b2 * w);
        assert(circulation(edges, tris, beta, t)[j] == before);
        let a_new = flow_inner(circulation(edges, tris, beta, t + 1), h, j);
        let a_old = flow_inner(circulation(edges, tris, beta, t), h, j);
        let cu = curl_at(edges, tris[t], h, j);
        assert(a_new + (before + b2 * w) * hv == a_old + before * hv + w * (cu + b2 * hv)) by (nonlinear_arith)
            requires
                a_new == a_old + w * cu,
        ;
    }
}

proof fn lemma_circulation_inner_curl_free(edges: Seq<Edge>, tris: Seq<[usize; 3]>, beta: Seq<int>, h: Seq<int>, t: int)
    requires
        0 <= t <= tris.len(),
        forall|s: int| 0 <= s < tris.len() ==> #[trigger] curl_at(edges, tris[s], h, edges.len() as int) == 0,
    ensures
        flow_inner(circulation(edges, tris, beta, t), h, edges.len() as int) == 0,
    decreases t,
{
    if t == 0 {
        lemma_circulation_inner_zero(edges, tris, beta, h, edges.len() as int);
    } else {
        lemma_circulation_inner_curl_free(edges, tris, beta, h, t - 1);
        lemma_circulation_inner_adds_triangle(edges, tris, beta, h, t - 1, edges.len() as int);
        assert(curl_at(edges, tris[t - 1], h, edges.len() as int) == 0);
        assert(beta[t - 1] * curl_at(edges, tris[t - 1], h, edges.len() as int) == 0);
    }
}

/// A harmonic flow is orthogonal to every gradient flow and every curl flow:
/// when the edge flow `h` is divergence-free (B₁ h = 0 at each of the `n` nodes) and curl-free around
/// every listed triangle (B₂ᵀ h = 0), then ⟨B₁ᵀ f, h⟩ = 0 for every potential
/// `f` and ⟨B₂ beta, h⟩ = 0 for all triangle weights `beta`.
pub proof fn lemma_harmonic_orthogonal(
    edges: Seq<Edge>,
    f: Seq<int>,
    n: int,
    tris: Seq<[usize; 3]>,
    beta: Seq<int>,
    h: Seq<int>,
)
    requires
        f.len() == n,
        beta.len() == tris.len(),
        h.len() == edges.len(),
        forall|i: int| 0 <= i < n ==> #[trigger] divergence_at(edges, h, i, edges.len() as int) == 0,
        forall|s: int| 0 <= s < tris.len() ==> #[trigger] curl_at(edges, tris[s], h, edges.len() as int) == 0,
    ensures
        flow_inner(gradient_flow(edges, f, n), h, edges.len() as int) == 0,
        flow_inner(circulation(edges, tris, beta, tris.len() as int), h, edges.len() as int) == 0,
{
    lemma_incidence_adjoint(edges, f, n, h);
    lemma_pairing_of_divergence_free(edges, f, n, h);
    lemma_circulation_inner_curl_free(edges, tris, beta, h, tris.len() as int);
}

proof fn lemma_row_dot_symmetric(a: Seq<Vec<i64>>, i: int, j: int, k: int)
    ensures
        row_dot(a, i, j, k) == row_dot(a, j, i, k),
    decreases k,
{
    if k > 0 {
        lemma_row_dot_symmetric(a, i, j, k - 1);
        assert(a[i][k - 1] * a[j][k - 1] == a[j][k - 1] * a[i][k - 1]) by (nonlinear_arith);
    }
}

proof fn lemma_col_dot_symmetric(a: Seq<Vec<i64>>, i: int, j: int, k: int)
    ensures
        col_dot(a, i, j, k) == col_dot(a, j, i, k),
    decreases k,
{
    if k > 0 {
        lemma_col_dot_symmetric(a, i, j, k - 1);
        assert(a[k - 1][i] * a[k - 1][j] == a[k - 1][j] * a[k - 1][i]) by (nonlinear_arith);
    }
}

/// The Laplacians are symmetric: L₀ = B₁B₁ᵀ, B₁ᵀB₁ and L₁ = B₁ᵀB₁ + B₂B₂ᵀ
/// each equal their transpose, entry by entry.
pub proof fn lemma_laplacians_symmetric(b1: Seq<Vec<i64>>, b2: Seq<Vec<i64>>, i: int, j: int)
    ensures
        row_dot(b1, i, j, width(b1)) == row_dot(b1, j, i, width(b1)),
        col_dot(b1, i, j, b1.len() as int) == col_dot(b1, j, i, b1.len() as int),
        hodge_entry(b1, b2, i, j) == hodge_entry(b1, b2, j, i),
{
    lemma_row_dot_symmetric(b1, i, j, width(b1));
    lemma_col_dot_symmetric(b1, i, j, b1.len() as int);
    lemma_row_dot_symmetric(b2, i, j, width(b2));
}


// ---------------------------------------------------------------------------
// What the Laplacians count
// ---------------------------------------------------------------------------

/// `a` is the incidence matrix of `edges` on `n` nodes: n rows of one entry per
/// edge, +1 at the head of the edge, −1 at its tail.
pub open spec fn is_incidence(a: Seq<Vec<i64>>, edges: Seq<Edge>, n: int) -> bool {
    &&& a.len() == n
    &&& forall|i: int| 0 <= i < n ==> #[trigger] a[i].len() == edges.len()
    &&& forall|i: int, k: int|
        0 <= i < n && 0 <= k < edges.len() ==> #[trigger] a[i][k] == incidence_entry(edges[k], i)
}

/// No edge of `edges` is a self-loop.
pub open spec fn loop_free(edges: Seq<Edge>) -> bool {
    forall|j: int| 0 <= j < edges.len() ==> #[trigger] edges[j].from != edges[j].to
}

/// The edges that have the node `i` as an endpoint.
pub open spec fn at_node(i: int) -> spec_fn(Edge) -> bool {
    |e: Edge| e.from == i || e.to == i
}

/// The edges that join the nodes `i` and `j`, in either direction.
pub open spec fn between(i: int, j: int) -> spec_fn(Edge) -> bool {
    |e: Edge| (e.from == i && e.to == j) || (e.from == j && e.to == i)
}

/// How two edges meet: +1 for a shared head and for a shared tail, −1 where the
/// head of one is the tail of the other.
pub open spec fn edge_overlap(e: Edge, f: Edge) -> int {
    (if e.to == f.to { 1int } else { 0int }) + (if e.from == f.from { 1int } else { 0int }) - (if e.to
        == f.from { 1int } else { 0int }) - (if e.from == f.to { 1int } else { 0int })
}

proof fn lemma_row_term(e: Edge, i: int, j: int)
    requires
        e.from != e.to,
    ensures
        incidence_entry(e, i) * incidence_entry(e, j) == if i == j {
            if e.from == i || e.to == i { 1int } else { 0int }
        } else {
            if (e.from == i && e.to == j) || (e.from == j && e.to == i) { -1int } else { 0int }
        },
{
    let x = incidence_entry(e, i);
    let y = incidence_entry(e, j);
    if x == 0 {
        assert(x * y == 0);
    } else if x == 1 {
        assert(x * y == y);
    } else {
        assert(x * y == -y);
    }
}

proof fn lemma_row_dot_counts_prefix(a: Seq<Vec<i64>>, edges: Seq<Edge>, n: int, i: int, j: int, k: int)
    requires
        is_incidence(a, edges, n),
        loop_free(edges),
        0 <= i < n,
        0 <= j < n,
        0 <= k <= edges.len(),
    ensures
        row_dot(a, i, j, k) == if i == j {
            edges.take(k).filter(at_node(i)).len() as int
        } else {
            -(edges.take(k).filter(between(i, j)).len() as int)
        },
    decreases k,
{
    if k == 0 {
        assert(edges.take(0) =~= Seq::<Edge>::empty());
        assert(Seq::<Edge>::empty().filter(at_node(i)) =~= Seq::<Edge>::empty()) by {
            reveal(Seq::filter);
        }
        assert(Seq::<Edge>::empty().filter(between(i, j)) =~= Seq::<Edge>::empty()) by {
            reveal(Seq::filter);
        }
    } else {
        lemma_row_dot_counts_prefix(a, edges, n, i, j, k - 1);
        let e = edges[k - 1];
        assert(edges.take(k) =~= edges.take(k - 1).push(e));
        edges.take(k - 1).lemma_filter_push(e, at_node(i));
        edges.take(k - 1).lemma_filter_push(e, between(i, j));
        assert(a[i][k - 1] == incidence_entry(e, i));
        assert(a[j][k - 1] == incidence_entry(e, j));
        assert(e.from != e.to);
        lemma_row_term(e, i, j);
    }
}

/// The graph Laplacian B₁B₁ᵀ of a network without self-loops counts edges: its
/// diagonal entry at a node is the node's degree, the number of edges at it,
/// and its entry at two distinct nodes is minus the number of edges joining them.
pub proof fn lemma_graph_laplacian_counts_edges(a: Seq<Vec<i64>>, edges: Seq<Edge>, n: int, i: int, j: int)
    requires
        is_incidence(a, edges, n),
        loop_free(edges),
        0 <= i < n,
        0 <= j < n,
    ensures
        row_dot(a, i, j, width(a)) == if i == j {
            edges.filter(at_node(i)).len() as int
        } else {
            -(edges.filter(between(i, j)).len() as int)
        },
{
    assert(a[0].len() == edges.len());
    lemma_row_dot_counts_prefix(a, edges, n, i, j, edges.len() as int);
    assert(edges.take(edges.len() as int) =~= edges);
}

proof fn lemma_col_term(e: Edge, f: Edge, r: int)
    requires
        e.from != e.to,
        f.from != f.to,
    ensures
        incidence_entry(e, r) * incidence_entry(f, r) == (if e.to == r && f.to == r { 1int } else { 0int })
            + (if e.from == r && f.from == r { 1int } else { 0int }) - (if e.to == r && f.from == r {
            1int
        } else {
            0int
        }) - (if e.from == r && f.to == r { 1int } else { 0int }),
{
    let x = incidence_entry(e, r);
    let y = incidence_entry(f, r);
    if x == 0 {
        assert(x * y == 0);
    } else if x == 1 {
        assert(x * y == y);
    } else {
        assert(x * y == -y);
    }
}

proof fn lemma_col_dot_overlap_prefix(a: Seq<Vec<i64>>, edges: Seq<Edge>, n: int, j: int, k: int, len: int)
    requires
        is_incidence(a, edges, n),
        loop_free(edges),
        0 <= j < edges.len(),
        0 <= k < edges.len(),
        0 <= len <= n,
    ensures
        col_dot(a, j, k, len) == (if edges[j].to == edges[k].to && edges[j].to < len { 1int } else { 0int })
            + (if edges[j].from == edges[k].from && edges[j].from < len { 1int } else { 0int }) - (if edges[j].to
            == edges[k].from && edges[j].to < len { 1int } else { 0int }) - (if edges[j].from == edges[k].to
            && edges[j].from < len { 1int } else { 0int }),
    decreases len,
{
    if len > 0 {
        lemma_col_dot_overlap_prefix(a, edges, n, j, k, len - 1);
        let r = len - 1;
        assert(a[r][j] == incidence_entry(edges[j], r));
        assert(a[r][k] == incidence_entry(edges[k], r));
        assert(edges[j].from != edges[j].to && edges[k].from != edges[k].to);
        lemma_col_term(edges[j], edges[k], r);
    }
}

/// The edge Laplacian B₁ᵀB₁ of a network without self-loops records how edges
/// meet: its entry for two edges is +1 for a shared head and for a shared tail,
/// and −1 where the head of one is the tail of the other; so each diagonal entry is 2.
pub proof fn lemma_edge_laplacian_counts_meetings(a: Seq<Vec<i64>>, edges: Seq<Edge>, n: int, j: int, k: int)
    requires
        is_incidence(a, edges, n),
        loop_free(edges),
        edges_within(edges, n),
        0 <= j < edges.len(),
        0 <= k < edges.len(),
    ensures
        col_dot(a, j, k, a.len() as int) == edge_overlap(edges[j], edges[k]),
        col_dot(a, j, j, a.len() as int) == 2,
{
    lemma_col_dot_overlap_prefix(a, edges, n, j, k, n);
    lemma_col_dot_overlap_prefix(a, edges, n, j, j, n);
}

/// `b` is the boundary matrix of the triangles `tris` over `edges`: one row per
/// edge and one column per triangle.
pub open spec fn is_boundary(b: Seq<Vec<i64>>, edges: Seq<Edge>, tris: Seq<[usize; 3]>) -> bool {
    &&& b.len() == edges.len()
    &&& forall|r: int| 0 <= r < edges.len() ==> #[trigger] b[r].len() == tris.len()
    &&& forall|r: int, t: int|
        0 <= r < edges.len() && 0 <= t < tris.len() ==> #[trigger] b[r][t] == boundary_entry(edges, tris[t], r)
}

/// The triangles whose boundary runs along the edge in row `r`.
pub open spec fn bounded_by(edges: Seq<Edge>, r: int) -> spec_fn([usize; 3]) -> bool {
    |tri: [usize; 3]| boundary_entry(edges, tri, r) != 0
}

proof fn lemma_written_sign(w: Option<(int, int)>, r: int)
    requires
        w matches Some(rs) ==> rs.1 == 1 || rs.1 == -1,
    ensures
        written(w, r) matches Some(s) ==> s == 1 || s == -1,
{
}

proof fn lemma_pair_write_sign(edges: Seq<Edge>, u: usize, v: usize, sign: int)
    requires
        sign == 1 || sign == -1,
    ensures
        pair_write(edges, u, v, sign) matches Some(rs) ==> rs.1 == 1 || rs.1 == -1,
{
}

/// Every entry of B₂ is 1, −1 or 0.
proof fn lemma_boundary_entry_sign(edges: Seq<Edge>, tri: [usize; 3], r: int)
    ensures
        boundary_entry(edges, tri, r) == 1 || boundary_entry(edges, tri, r) == -1 || boundary_entry(edges, tri, r)
            == 0,
{
    lemma_pair_write_sign(edges, tri[1], tri[2], 1);
    lemma_pair_write_sign(edges, tri[0], tri[2], -1);
    lemma_pair_write_sign(edges, tri[0], tri[1], 1);
    lemma_written_sign(pair_write(edges, tri[1], tri[2], 1), r);
    lemma_written_sign(pair_write(edges, tri[0], tri[2], -1), r);
    lemma_written_sign(pair_write(edges, tri[0], tri[1], 1), r);
}

proof fn lemma_down_diagonal_prefix(b: Seq<Vec<i64>>, edges: Seq<Edge>, tris: Seq<[usize; 3]>, r: int, t: int)
    requires
        is_boundary(b, edges, tris),
        0 <= r < edges.len(),
        0 <= t <= tris.len(),
    ensures
        row_dot(b, r, r, t) == tris.take(t).filter(bounded_by(edges, r)).len(),
    decreases t,
{
    if t == 0 {
        assert(tris.take(0) =~= Seq::<[usize; 3]>::empty());
        assert(Seq::<[usize; 3]>::empty().filter(bounded_by(edges, r)) =~= Seq::<[usize; 3]>::empty()) by {
            reveal(Seq::filter);
        }
    } else {
        lemma_down_diagonal_prefix(b, edges, tris, r, t - 1);
        let tri = tris[t - 1];
        assert(tris.take(t) =~= tris.take(t - 1).push(tri));
        tris.take(t - 1).lemma_filter_push(tri, bounded_by(edges, r));
        assert(b[r][t - 1] == boundary_entry(edges, tri, r));
        lemma_boundary_entry_sign(edges, tri, r);
        let x = boundary_entry(edges, tri, r);
        if x == 1 {
            assert(x * x == 1);
        } else if x == -1 {
            assert(x * x == 1);
        } else {
            assert(x * x == 0);
        }
    }
}

/// The down part B₂B₂ᵀ counts triangles: its diagonal entry for an edge is the
/// number of listed triangles whose boundary runs along that edge.
pub proof fn lemma_down_laplacian_counts_triangles(b: Seq<Vec<i64>>, edges: Seq<Edge>, tris: Seq<[usize; 3]>, r: int)
    requires
        is_boundary(b, edges, tris),
        0 <= r < edges.len(),
    ensures
        row_dot(b, r, r, width(b)) == tris.filter(bounded_by(edges, r)).len(),
{
    assert(b[0].len() == tris.len());
    lemma_down_diagonal_prefix(b, edges, tris, r, tris.len() as int);
    assert(tris.take(tris.len() as int) =~= tris);
}

/// The Hodge Laplacian L₁ = B₁ᵀB₁ + B₂B₂ᵀ of a network without self-loops has
/// one row and column per edge, and for each edge the diagonal entry 2 plus the
/// number of listed triangles whose boundary runs along the edge: both the up
/// part and the down part count.
pub proof fn lemma_hodge_laplacian_diagonal(
    b1: Seq<Vec<i64>>,
    b2: Seq<Vec<i64>>,
    edges: Seq<Edge>,
    n: int,
    tris: Seq<[usize; 3]>,
    r: int,
)
    requires
        is_incidence(b1, edges, n),
        is_boundary(b2, edges, tris),
        loop_free(edges),
        edges_within(edges, n),
        0 <= r < edges.len(),
    ensures
        hodge_edges(b1, b2) == edges.len(),
        hodge_entry(b1, b2, r, r) == 2 + tris.filter(bounded_by(edges, r)).len(),
{
    assert(edges[r].from < n);
    assert(b1[0].len() == edges.len());
    lemma_edge_laplacian_counts_meetings(b1, edges, n, r, r);
    lemma_down_laplacian_counts_triangles(b2, edges, tris, r);
}

} // verus!
