//! All-pairs shortest-path distances by min-plus relaxation.
//!
//! The distance matrix starts from the edge weights and is relaxed: a
//! pass replaces every entry `d[i][j]` by the least of `d[i][j]` and
//! `d[i][k] + d[k][j]` over every intermediate `k`, and passes repeat
//! until one changes nothing.  The exit condition of that loop is
//! literally the triangle inequality, and each pass only lowers entries,
//! so symmetry, the zero diagonal and the initial upper bounds are all
//! preserved.  Termination follows because every changing pass strictly
//! lowers the sum of all entries.

use vstd::prelude::*;

verus! {

/// Sentinel weight for a pair with no connecting path found: far larger
/// than any sum of real edge weights, yet small enough that adding two
/// of them stays well inside `u64`.
pub const UNREACHED: u64 = 1_000_000_000_000;

/// Entry (`i`, `j`) of a matrix held as a vector of row vectors.
pub open spec fn mat_at(m: Seq<Vec<u64>>, i: int, j: int) -> int {
    m[i]@[j] as int
}

/// An `n` by `n` matrix: `n` rows of `n` entries.
pub open spec fn mat_wf(m: Seq<Vec<u64>>, n: int) -> bool {
    m.len() == n && (forall|i: int| 0 <= i < n ==> (#[trigger] m[i])@.len() == n)
}

/// Every entry is at most `cap`.
pub open spec fn mat_bounded(m: Seq<Vec<u64>>, n: int, cap: int) -> bool {
    forall|i: int, j: int| 0 <= i < n && 0 <= j < n ==> #[trigger] mat_at(m, i, j) <= cap
}

/// The matrix equals its transpose.
pub open spec fn mat_symmetric(m: Seq<Vec<u64>>, n: int) -> bool {
    forall|i: int, j: int|
        0 <= i < n && 0 <= j < n ==> #[trigger] mat_at(m, i, j) == mat_at(m, j, i)
}

/// Every diagonal entry is zero.
pub open spec fn mat_zero_diag(m: Seq<Vec<u64>>, n: int) -> bool {
    forall|i: int| 0 <= i < n ==> #[trigger] mat_at(m, i, i) == 0
}

/// No entry exceeds a detour through any intermediate index.
pub open spec fn mat_triangle(m: Seq<Vec<u64>>, n: int) -> bool {
    forall|i: int, j: int, k: int|
        0 <= i < n && 0 <= j < n && 0 <= k < n ==> mat_at(m, i, j) <= #[trigger] mat_at(m, i, k)
            + #[trigger] mat_at(m, k, j)
}

/// Entry-wise comparison of two matrices of the same shape.
pub open spec fn mat_le(m1: Seq<Vec<u64>>, m2: Seq<Vec<u64>>, n: int) -> bool {
    forall|i: int, j: int|
        0 <= i < n && 0 <= j < n ==> #[trigger] mat_at(m1, i, j) <= mat_at(m2, i, j)
}

pub open spec fn min2(a: int, b: int) -> int {
    if a <= b {
        a
    } else {
        b
    }
}

/// The least of `m[i][j]` and every detour `m[i][t] + m[t][j]` with
/// `t < k`.
pub open spec fn through_upto(m: Seq<Vec<u64>>, i: int, j: int, k: int) -> int
    decreases k,
{
    if k <= 0 {
        mat_at(m, i, j)
    } else {
        min2(through_upto(m, i, j, k - 1), mat_at(m, i, k - 1) + mat_at(m, k - 1, j))
    }
}

/// The relaxed entry is at most the input entry and at most any
/// considered detour.
proof fn lemma_through_upto_le(m: Seq<Vec<u64>>, i: int, j: int, k: int)
    ensures
        through_upto(m, i, j, k) <= mat_at(m, i, j),
        forall|t: int|
            0 <= t < k ==> through_upto(m, i, j, k) <= #[trigger] mat_at(m, i, t) + mat_at(m, t, j),
    decreases k,
{
    if k > 0 {
        lemma_through_upto_le(m, i, j, k - 1);
    }
}

/// Relaxation keeps symmetry: on a symmetric matrix the relaxed entries
/// at (`i`, `j`) and (`j`, `i`) coincide.
proof fn lemma_through_upto_sym(m: Seq<Vec<u64>>, n: int, i: int, j: int, k: int)
    requires
        mat_wf(m, n),
        mat_symmetric(m, n),
        0 <= i < n,
        0 <= j < n,
        0 <= k <= n,
    ensures
        through_upto(m, i, j, k) == through_upto(m, j, i, k),
    decreases k,
{
    if k > 0 {
        lemma_through_upto_sym(m, n, i, j, k - 1);
    }
}

/// Sum of the entries of one row.
pub open spec fn row_sum(s: Seq<u64>) -> int
    decreases s.len(),
{
    if s.len() == 0 {
        0
    } else {
        row_sum(s.drop_last()) + s.last()
    }
}

/// Sum of all entries of the matrix.
pub open spec fn mat_sum(m: Seq<Vec<u64>>) -> int
    decreases m.len(),
{
    if m.len() == 0 {
        0
    } else {
        mat_sum(m.drop_last()) + row_sum(m.last()@)
    }
}

/// Row sums of unsigned entries are nonnegative.
proof fn lemma_row_sum_nonneg(s: Seq<u64>)
    ensures
        row_sum(s) >= 0,
    decreases s.len(),
{
    if s.len() > 0 {
        lemma_row_sum_nonneg(s.drop_last());
    }
}

/// Matrix sums of unsigned entries are nonnegative.
proof fn lemma_mat_sum_nonneg(m: Seq<Vec<u64>>)
    ensures
        mat_sum(m) >= 0,
    decreases m.len(),
{
    if m.len() > 0 {
        lemma_mat_sum_nonneg(m.drop_last());
        lemma_row_sum_nonneg(m.last()@);
    }
}

/// A row that is entry-wise at most another, and strictly below it
/// wherever `strict_at` points, has an accordingly smaller sum.
proof fn lemma_row_sum_le(s1: Seq<u64>, s2: Seq<u64>, strict_at: int)
    requires
        s1.len() == s2.len(),
        forall|t: int| 0 <= t < s1.len() ==> #[trigger] s1[t] <= s2[t],
    ensures
        row_sum(s1) <= row_sum(s2),
        0 <= strict_at < s1.len() && s1[strict_at] < s2[strict_at] ==> row_sum(s1) < row_sum(s2),
    decreases s1.len(),
{
    if s1.len() > 0 {
        assert(forall|t: int|
            0 <= t < s1.drop_last().len() ==> #[trigger] s1.drop_last()[t] <= s2.drop_last()[t]);
        lemma_row_sum_le(s1.drop_last(), s2.drop_last(), strict_at);
        assert(s1.last() <= s2.last());
    }
}

/// A matrix that is entry-wise at most another, and strictly below it
/// somewhere, has a strictly smaller entry sum.
proof fn lemma_mat_sum_lt(m1: Seq<Vec<u64>>, m2: Seq<Vec<u64>>, n: int, wi: int, wj: int)
    requires
        mat_wf(m1, n),
        mat_wf(m2, n),
        m1.len() == m2.len(),
        mat_le(m1, m2, n),
        0 <= wi < n,
        0 <= wj < n,
        mat_at(m1, wi, wj) < mat_at(m2, wi, wj),
    ensures
        mat_sum(m1) < mat_sum(m2),
{
    lemma_mat_sum_le_inner(m1, m2, n, n, wi, wj);
    assert(m1.take(n) =~= m1);
    assert(m2.take(n) =~= m2);
}

/// Sum comparison over the first `rows` rows, carrying one strict
/// witness.
proof fn lemma_mat_sum_le_inner(
    m1: Seq<Vec<u64>>,
    m2: Seq<Vec<u64>>,
    n: int,
    rows: int,
    wi: int,
    wj: int,
)
    requires
        mat_wf(m1, n),
        mat_wf(m2, n),
        0 <= rows <= n,
        mat_le(m1, m2, n),
        0 <= wi < n,
        0 <= wj < n,
        mat_at(m1, wi, wj) < mat_at(m2, wi, wj),
    ensures
        mat_sum(m1.take(rows)) <= mat_sum(m2.take(rows)),
        wi < rows ==> mat_sum(m1.take(rows)) < mat_sum(m2.take(rows)),
    decreases rows,
{
    if rows > 0 {
        lemma_mat_sum_le_inner(m1, m2, n, rows - 1, wi, wj);
        let t1 = m1.take(rows);
        let t2 = m2.take(rows);
        assert(t1.drop_last() =~= m1.take(rows - 1));
        assert(t2.drop_last() =~= m2.take(rows - 1));
        assert(t1.last() == m1[rows - 1]);
        assert(t2.last() == m2[rows - 1]);
        assert forall|t: int| 0 <= t < n implies #[trigger] m1[rows - 1]@[t] <= m2[rows
            - 1]@[t] by {
            assert(mat_at(m1, rows - 1, t) <= mat_at(m2, rows - 1, t));
        }
        if rows - 1 == wi {
            assert(m1[rows - 1]@[wj] < m2[rows - 1]@[wj]);
            lemma_row_sum_le(m1[rows - 1]@, m2[rows - 1]@, wj);
        } else {
            lemma_row_sum_le(m1[rows - 1]@, m2[rows - 1]@, -1);
        }
    }
}

/// Cost of the route from `i` to `j` through the intermediate stops
/// `p`, each leg priced by the matrix `m`.
pub open spec fn chain_cost(m: Seq<Vec<u64>>, i: int, p: Seq<int>, j: int) -> int
    decreases p.len(),
{
    if p.len() == 0 {
        mat_at(m, i, j)
    } else {
        mat_at(m, i, p[0]) + chain_cost(m, p[0], p.subrange(1, p.len() as int), j)
    }
}

/// All stops of the chain are usable indices.
pub open spec fn valid_chain(p: Seq<int>, n: int) -> bool {
    forall|k: int| 0 <= k < p.len() ==> 0 <= #[trigger] p[k] < n
}

/// Entry (`i`, `j`) of `r` equals the cost of some chain priced by `m`.
pub open spec fn entry_realized(r: Seq<Vec<u64>>, m: Seq<Vec<u64>>, n: int, i: int, j: int) -> bool {
    exists|p: Seq<int>| valid_chain(p, n) && #[trigger] chain_cost(m, i, p, j) == mat_at(r, i, j)
}

/// Every entry of `r` is realized by a chain priced by `m`; together
/// with the triangle inequality and the entry-wise bound by `m` this
/// pins `r` to the min-plus closure of `m`.
pub open spec fn mat_realized(r: Seq<Vec<u64>>, m: Seq<Vec<u64>>, n: int) -> bool {
    forall|i: int, j: int|
        0 <= i < n && 0 <= j < n ==> #[trigger] entry_realized(r, m, n, i, j)
}

/// Splitting a chain at a stop splits its cost.
proof fn lemma_chain_concat(m: Seq<Vec<u64>>, i: int, p1: Seq<int>, k: int, p2: Seq<int>, j: int)
    ensures
        chain_cost(m, i, p1 + seq![k] + p2, j) == chain_cost(m, i, p1, k) + chain_cost(
            m,
            k,
            p2,
            j,
        ),
    decreases p1.len(),
{
    let whole = p1 + seq![k] + p2;
    if p1.len() == 0 {
        assert(whole[0] == k);
        assert(whole.subrange(1, whole.len() as int) =~= p2);
    } else {
        let tail = p1.subrange(1, p1.len() as int);
        assert(whole[0] == p1[0]);
        assert(whole.subrange(1, whole.len() as int) =~= tail + seq![k] + p2);
        lemma_chain_concat(m, p1[0], tail, k, p2, j);
    }
}

/// A chain spliced from two valid chains and an in-range stop is valid.
proof fn lemma_chain_concat_valid(p1: Seq<int>, k: int, p2: Seq<int>, n: int)
    requires
        valid_chain(p1, n),
        valid_chain(p2, n),
        0 <= k < n,
    ensures
        valid_chain(p1 + seq![k] + p2, n),
{
    let whole = p1 + seq![k] + p2;
    assert forall|t: int| 0 <= t < whole.len() implies 0 <= #[trigger] whole[t] < n by {
        if t < p1.len() {
            assert(whole[t] == p1[t]);
        } else if t == p1.len() {
            assert(whole[t] == k);
        } else {
            assert(whole[t] == p2[t - p1.len() - 1]);
        }
    }
}

/// If every entry of `cur` is realized over `m0`, so is every relaxed
/// entry: either the old chain, or the splice of the two detour chains.
proof fn lemma_through_realized(
    cur: Seq<Vec<u64>>,
    m0: Seq<Vec<u64>>,
    n: int,
    i: int,
    j: int,
    k: int,
)
    requires
        mat_realized(cur, m0, n),
        0 <= i < n,
        0 <= j < n,
        0 <= k <= n,
    ensures
        exists|p: Seq<int>|
            valid_chain(p, n) && #[trigger] chain_cost(m0, i, p, j) == through_upto(cur, i, j, k),
    decreases k,
{
    if k == 0 {
        assert(entry_realized(cur, m0, n, i, j));
        let p = choose|p: Seq<int>|
            valid_chain(p, n) && #[trigger] chain_cost(m0, i, p, j) == mat_at(cur, i, j);
        assert(chain_cost(m0, i, p, j) == through_upto(cur, i, j, 0));
    } else {
        lemma_through_realized(cur, m0, n, i, j, k - 1);
        if through_upto(cur, i, j, k) == through_upto(cur, i, j, k - 1) {
            let p = choose|p: Seq<int>|
                valid_chain(p, n) && #[trigger] chain_cost(m0, i, p, j) == through_upto(
                    cur,
                    i,
                    j,
                    k - 1,
                );
            assert(chain_cost(m0, i, p, j) == through_upto(cur, i, j, k));
        } else {
            assert(through_upto(cur, i, j, k) == mat_at(cur, i, k - 1) + mat_at(cur, k - 1, j));
            assert(entry_realized(cur, m0, n, i, k - 1));
            assert(entry_realized(cur, m0, n, k - 1, j));
            let q1 = choose|p: Seq<int>|
                valid_chain(p, n) && #[trigger] chain_cost(m0, i, p, k - 1) == mat_at(
                    cur,
                    i,
                    k - 1,
                );
            let q2 = choose|p: Seq<int>|
                valid_chain(p, n) && #[trigger] chain_cost(m0, k - 1, p, j) == mat_at(
                    cur,
                    k - 1,
                    j,
                );
            lemma_chain_concat(m0, i, q1, k - 1, q2, j);
            lemma_chain_concat_valid(q1, k - 1, q2, n);
            assert(chain_cost(m0, i, q1 + seq![k - 1] + q2, j) == through_upto(cur, i, j, k));
        }
    }
}

/// One full relaxation pass: each output entry is the least of the input
/// entry and every one-stop detour.
fn relax_pass(m: &Vec<Vec<u64>>, n: usize) -> (res: Vec<Vec<u64>>)
    requires
        mat_wf(m@, n as int),
        mat_bounded(m@, n as int, UNREACHED as int),
    ensures
        mat_wf(res@, n as int),
        forall|i: int, j: int|
            0 <= i < n && 0 <= j < n ==> #[trigger] mat_at(res@, i, j) == through_upto(
                m@,
                i,
                j,
                n as int,
            ),
{
    let mut res: Vec<Vec<u64>> = Vec::new();
    let mut i: usize = 0;
    while i < n
        invariant
            i <= n,
            mat_wf(m@, n as int),
            mat_bounded(m@, n as int, UNREACHED as int),
            res@.len() == i,
            forall|a: int| 0 <= a < i ==> (#[trigger] res@[a])@.len() == n,
            forall|a: int, b: int|
                0 <= a < i && 0 <= b < n ==> #[trigger] mat_at(res@, a, b) == through_upto(
                    m@,
                    a,
                    b,
                    n as int,
                ),
        decreases n - i,
    {
        let mut row: Vec<u64> = Vec::new();
        let mut j: usize = 0;
        while j < n
            invariant
                i < n,
                j <= n,
                mat_wf(m@, n as int),
                mat_bounded(m@, n as int, UNREACHED as int),
                row@.len() == j,
                forall|b: int|
                    0 <= b < j ==> #[trigger] row@[b] as int == through_upto(
                        m@,
                        i as int,
                        b,
                        n as int,
                    ),
            decreases n - j,
        {
            let mut val: u64 = m[i][j];
            proof {
                assert(mat_at(m@, i as int, j as int) <= UNREACHED as int);
            }
            let mut k: usize = 0;
            while k < n
                invariant
                    i < n,
                    j < n,
                    k <= n,
                    mat_wf(m@, n as int),
                    mat_bounded(m@, n as int, UNREACHED as int),
                    val as int == through_upto(m@, i as int, j as int, k as int),
                    val <= UNREACHED,
                decreases n - k,
            {
                proof {
                    lemma_through_upto_le(m@, i as int, j as int, k as int);
                    assert(mat_at(m@, i as int, k as int) <= UNREACHED as int);
                    assert(mat_at(m@, k as int, j as int) <= UNREACHED as int);
                }
                let cand: u64 = m[i][k] + m[k][j];
                if cand < val {
                    val = cand;
                }
                k = k + 1;
            }
            row.push(val);
            j = j + 1;
        }
        let ghost res0 = res@;
        res.push(row);
        proof {
            assert forall|a: int, b: int| 0 <= a < i + 1 && 0 <= b < n implies #[trigger] mat_at(
                res@,
                a,
                b,
            ) == through_upto(m@, a, b, n as int) by {
                if a < i {
                    assert(res@[a] == res0[a]);
                    assert(mat_at(res0, a, b) == through_upto(m@, a, b, n as int));
                } else {
                    assert(res@[a] == row);
                    assert(row@[b] as int == through_upto(m@, i as int, b, n as int));
                }
            }
        }
        i = i + 1;
    }
    res
}

/// Do two well-formed `n` by `n` matrices agree everywhere?
fn mats_equal(a: &Vec<Vec<u64>>, b: &Vec<Vec<u64>>, n: usize) -> (r: bool)
    requires
        mat_wf(a@, n as int),
        mat_wf(b@, n as int),
    ensures
        r == (forall|i: int, j: int|
            0 <= i < n && 0 <= j < n ==> #[trigger] mat_at(a@, i, j) == mat_at(b@, i, j)),
{
    let mut eq: bool = true;
    let mut i: usize = 0;
    while i < n
        invariant
            i <= n,
            mat_wf(a@, n as int),
            mat_wf(b@, n as int),
            eq == (forall|x: int, y: int|
                0 <= x < i && 0 <= y < n ==> #[trigger] mat_at(a@, x, y) == mat_at(b@, x, y)),
        decreases n - i,
    {
        let mut j: usize = 0;
        let mut roweq: bool = true;
        while j < n
            invariant
                i < n,
                j <= n,
                mat_wf(a@, n as int),
                mat_wf(b@, n as int),
                roweq == (forall|y: int|
                    0 <= y < j ==> #[trigger] mat_at(a@, i as int, y) == mat_at(b@, i as int, y)),
            decreases n - j,
        {
            if a[i][j] != b[i][j] {
                proof {
                    assert(mat_at(a@, i as int, j as int) != mat_at(b@, i as int, j as int));
                }
                roweq = false;
            }
            j = j + 1;
        }
        eq = eq && roweq;
        i = i + 1;
    }
    eq
}

/// Relaxes the matrix to a fixpoint.  The result is entry-wise at most
/// the input; it keeps the input's symmetry, zero diagonal and bound, and
/// at the fixpoint it satisfies the triangle inequality.
pub fn stabilize_distances(dist: Vec<Vec<u64>>, n: usize) -> (r: Vec<Vec<u64>>)
    requires
        mat_wf(dist@, n as int),
        mat_bounded(dist@, n as int, UNREACHED as int),
        mat_symmetric(dist@, n as int),
        mat_zero_diag(dist@, n as int),
    ensures
        mat_wf(r@, n as int),
        mat_bounded(r@, n as int, UNREACHED as int),
        mat_symmetric(r@, n as int),
        mat_zero_diag(r@, n as int),
        mat_triangle(r@, n as int),
        mat_le(r@, dist@, n as int),
        mat_realized(r@, dist@, n as int),
{
    let ghost orig = dist@;
    let mut m = dist;
    proof {
        assert forall|i: int, j: int| 0 <= i < n && 0 <= j < n implies #[trigger] entry_realized(
            m@,
            orig,
            n as int,
            i,
            j,
        ) by {
            let p = Seq::<int>::empty();
            assert(valid_chain(p, n as int));
            assert(chain_cost(orig, i, p, j) == mat_at(m@, i, j));
        }
    }
    loop
        invariant
            mat_wf(m@, n as int),
            mat_bounded(m@, n as int, UNREACHED as int),
            mat_symmetric(m@, n as int),
            mat_zero_diag(m@, n as int),
            mat_le(m@, orig, n as int),
            mat_realized(m@, orig, n as int),
            orig == dist@,
        ensures
            mat_wf(m@, n as int),
            mat_bounded(m@, n as int, UNREACHED as int),
            mat_symmetric(m@, n as int),
            mat_zero_diag(m@, n as int),
            mat_le(m@, orig, n as int),
            mat_triangle(m@, n as int),
            mat_realized(m@, orig, n as int),
        decreases mat_sum(m@),
    {
        let next = relax_pass(&m, n);
        proof {
            assert forall|i: int, j: int| 0 <= i < n && 0 <= j < n implies #[trigger] mat_at(
                next@,
                i,
                j,
            ) <= mat_at(m@, i, j) by {
                lemma_through_upto_le(m@, i, j, n as int);
            }
            assert forall|i: int, j: int|
                0 <= i < n && 0 <= j < n implies #[trigger] entry_realized(
                next@,
                orig,
                n as int,
                i,
                j,
            ) by {
                lemma_through_realized(m@, orig, n as int, i, j, n as int);
                let p = choose|p: Seq<int>|
                    valid_chain(p, n as int) && #[trigger] chain_cost(orig, i, p, j)
                        == through_upto(m@, i, j, n as int);
                assert(chain_cost(orig, i, p, j) == mat_at(next@, i, j));
            }
            assert forall|i: int, j: int| 0 <= i < n && 0 <= j < n implies #[trigger] mat_at(
                next@,
                i,
                j,
            ) == mat_at(next@, j, i) by {
                lemma_through_upto_sym(m@, n as int, i, j, n as int);
            }
        }
        let same = mats_equal(&next, &m, n);
        if same {
            proof {
                assert forall|i: int, j: int, k: int|
                    0 <= i < n && 0 <= j < n && 0 <= k < n implies mat_at(m@, i, j)
                    <= #[trigger] mat_at(m@, i, k) + #[trigger] mat_at(m@, k, j) by {
                    lemma_through_upto_le(m@, i, j, n as int);
                    assert(mat_at(next@, i, j) == through_upto(m@, i, j, n as int));
                }
            }
            return m;
        }
        proof {
            assert(exists|i: int, j: int|
                0 <= i < n && 0 <= j < n && #[trigger] mat_at(next@, i, j) != mat_at(m@, i, j));
            let (wi, wj) = choose|i: int, j: int|
                0 <= i < n && 0 <= j < n && #[trigger] mat_at(next@, i, j) != mat_at(m@, i, j);
            lemma_mat_sum_lt(next@, m@, n as int, wi, wj);
            lemma_mat_sum_nonneg(next@);
        }
        m = next;
    }
}

} // verus!
