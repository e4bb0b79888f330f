use vstd::prelude::*;

verus! {

/// Every row of `a` has at least `w` entries.
pub open spec fn all_rows_at_least<T>(a: Seq<Vec<T>>, w: int) -> bool {
    forall|i: int| 0 <= i < a.len() ==> #[trigger] a[i].len() >= w
}

/// Transpose a matrix: the result has one row per column of the first row of
/// `a`, and entry (j, i) of the result is entry (i, j) of `a`.
pub fn transpose<T: Copy>(a: &[Vec<T>]) -> (t: Vec<Vec<T>>)
    requires
        a.len() > 0 ==> all_rows_at_least(a@, a@[0].len() as int),
    ensures
        a.len() == 0 ==> t.len() == 0,
        a.len() > 0 ==> t.len() == a@[0].len(),
        forall|j: int| 0 <= j < t.len() ==> #[trigger] t[j].len() == a.len(),
        forall|j: int, i: int| 0 <= j < t.len() && 0 <= i < a.len() ==> #[trigger] t[j][i] == a@[i][j],
{
    if a.len() == 0 {
        return Vec::new();
    }
    let m = a.len();
    let n = a[0].len();
    let mut t: Vec<Vec<T>> = Vec::new();
    let mut j: usize = 0;
    while j < n
        invariant
            m == a.len(),
            m > 0,
            n == a@[0].len(),
            all_rows_at_least(a@, n as int),
            j <= n,
            t.len() == j,
            forall|r: int| 0 <= r < j ==> #[trigger] t[r].len() == m,
            forall|r: int, i: int| 0 <= r < j && 0 <= i < m ==> #[trigger] t[r][i] == a@[i][r],
        decreases n - j,
    {
        let mut row: Vec<T> = Vec::new();
        let mut i: usize = 0;
        while i < m
            invariant
                m == a.len(),
                n == a@[0].len(),
                all_rows_at_least(a@, n as int),
                j < n,
                i <= m,
                row.len() == i,
                forall|c: int| 0 <= c < i ==> #[trigger] row[c] == a@[c][j as int],
            decreases m - i,
        {
            assert(a@[i as int].len() >= n);
            row.push(a[i][j]);
            i += 1;
        }
        t.push(row);
        j += 1;
    }
    t
}

} // verus!
