//! The mathematical model: weight matrices, assignments, their totals,
//! and the duality argument that certifies an assignment as optimal.
use vstd::prelude::*;

verus! {

/// Number of columns of a matrix given as its rows (zero when there are no rows).
pub open spec fn ncols(w: Seq<Vec<i64>>) -> int {
    if w.len() == 0 { 0 } else { w[0]@.len() as int }
}

/// Every row has the same length.
pub open spec fn is_matrix(w: Seq<Vec<i64>>) -> bool {
    forall|x: int| 0 <= x < w.len() ==> (#[trigger] w[x]@).len() == ncols(w)
}

/// A matrix the solver accepts: rectangular, with no more rows than columns.
pub open spec fn solvable(w: Seq<Vec<i64>>) -> bool {
    is_matrix(w) && w.len() <= ncols(w)
}

/// The weight of the edge between row `x` and column `y`.
pub open spec fn wt(w: Seq<Vec<i64>>, x: int, y: int) -> int {
    w[x]@[y] as int
}

/// `a[x]` is the column given to row `x`: one column per row, in range, no column twice.
pub open spec fn is_assignment(w: Seq<Vec<i64>>, a: Seq<int>) -> bool {
    &&& a.len() == w.len()
    &&& forall|i: int| 0 <= i < a.len() ==> 0 <= #[trigger] a[i] < ncols(w)
    &&& forall|i: int, j: int| 0 <= i < a.len() && 0 <= j < a.len() && i != j ==> a[i] != a[j]
}

/// Sum of the weights of the first `n` rows' edges under `a`.
pub open spec fn total_upto(w: Seq<Vec<i64>>, a: Seq<int>, n: int) -> int
    decreases n,
{
    if n <= 0 { 0 } else { total_upto(w, a, n - 1) + wt(w, n - 1, a[n - 1]) }
}

/// Sum of the weights of the edges chosen by `a`.
pub open spec fn total(w: Seq<Vec<i64>>, a: Seq<int>) -> int {
    total_upto(w, a, a.len() as int)
}

/// `a` is an assignment whose total no other assignment exceeds.
pub open spec fn is_max_assignment(w: Seq<Vec<i64>>, a: Seq<int>) -> bool {
    &&& is_assignment(w, a)
    &&& forall|b: Seq<int>| is_assignment(w, b) ==> total(w, b) <= total(w, a)
}

/// `a` is an assignment whose total no other assignment undercuts.
pub open spec fn is_min_assignment(w: Seq<Vec<i64>>, a: Seq<int>) -> bool {
    &&& is_assignment(w, a)
    &&& forall|b: Seq<int>| is_assignment(w, b) ==> total(w, a) <= total(w, b)
}

/// The columns of a list of `(row, column)` pairs.
pub open spec fn columns(m: Seq<(usize, usize)>) -> Seq<int> {
    m.map_values(|p: (usize, usize)| p.1 as int)
}

/// The `i`-th pair names row `i`.
pub open spec fn in_row_order(m: Seq<(usize, usize)>) -> bool {
    forall|i: int| 0 <= i < m.len() ==> (#[trigger] m[i]).0 == i
}

/// Labels that bound every edge from above: `lx[x] + ly[y] >= w[x][y]`.
pub open spec fn feasible(w: Seq<Vec<i64>>, lx: Seq<i128>, ly: Seq<i128>) -> bool {
    &&& lx.len() == w.len()
    &&& ly.len() == ncols(w)
    &&& forall|x: int, y: int|
        0 <= x < w.len() && 0 <= y < ncols(w) ==> lx[x] + ly[y] >= #[trigger] wt(w, x, y)
}

/// The labels certify `a`: they are feasible, tight on every chosen edge,
/// and the column labels are non-negative and vanish off the chosen columns.
pub open spec fn certifies(w: Seq<Vec<i64>>, lx: Seq<i128>, ly: Seq<i128>, a: Seq<int>) -> bool {
    &&& feasible(w, lx, ly)
    &&& is_assignment(w, a)
    &&& forall|x: int| 0 <= x < w.len() ==> lx[x] + ly[a[x]] == #[trigger] wt(w, x, a[x])
    &&& forall|y: int| 0 <= y < ncols(w) ==> #[trigger] ly[y] >= 0
    &&& forall|y: int| 0 <= y < ncols(w) && #[trigger] ly[y] != 0 ==> a.contains(y)
}

/// The matrix with every entry negated.
pub open spec fn negated(w: Seq<Vec<i64>>, v: Seq<Vec<i64>>) -> bool {
    &&& v.len() == w.len()
    &&& forall|x: int| 0 <= x < w.len() ==> (#[trigger] v[x]@).len() == w[x]@.len()
    &&& forall|x: int, y: int|
        0 <= x < w.len() && 0 <= y < w[x]@.len() ==> v[x]@[y] == -(w[x]@[y] as int)
}

/// Sum of the first `n` row labels.
pub open spec fn sum_rows(lx: Seq<i128>, n: int) -> int
    decreases n,
{
    if n <= 0 { 0 } else { sum_rows(lx, n - 1) + lx[n - 1] }
}

/// Sum of the first `m` column labels.
pub open spec fn sum_cols(ly: Seq<i128>, m: int) -> int
    decreases m,
{
    if m <= 0 { 0 } else { sum_cols(ly, m - 1) + ly[m - 1] }
}

/// Sum of the column labels chosen by the first `n` rows under `a`.
pub open spec fn sum_chosen(ly: Seq<i128>, a: Seq<int>, n: int) -> int
    decreases n,
{
    if n <= 0 { 0 } else { sum_chosen(ly, a, n - 1) + ly[a[n - 1]] }
}

proof fn lemma_total_bound(w: Seq<Vec<i64>>, lx: Seq<i128>, ly: Seq<i128>, a: Seq<int>, n: int)
    requires
        feasible(w, lx, ly),
        0 <= n <= a.len(),
        a.len() == w.len(),
        forall|i: int| 0 <= i < a.len() ==> 0 <= #[trigger] a[i] < ncols(w),
    ensures
        total_upto(w, a, n) <= sum_rows(lx, n) + sum_chosen(ly, a, n),
        (forall|x: int| 0 <= x < w.len() ==> lx[x] + ly[a[x]] == #[trigger] wt(w, x, a[x]))
            ==> total_upto(w, a, n) == sum_rows(lx, n) + sum_chosen(ly, a, n),
    decreases n,
{
    if n > 0 {
        lemma_total_bound(w, lx, ly, a, n - 1);
        assert(0 <= a[n - 1] < ncols(w));
        assert(lx[n - 1] + ly[a[n - 1]] >= wt(w, n - 1, a[n - 1]));
    }
}

proof fn lemma_sum_cols_zeroed(ly: Seq<i128>, m: int, k: int)
    requires
        0 <= k < m <= ly.len(),
    ensures
        sum_cols(ly.update(k, 0), m) == sum_cols(ly, m) - ly[k],
    decreases m,
{
    if m - 1 > k {
        lemma_sum_cols_zeroed(ly, m - 1, k);
    } else {
        lemma_sum_cols_same(ly, ly.update(k, 0), m - 1);
    }
}

proof fn lemma_sum_cols_same(a: Seq<i128>, b: Seq<i128>, m: int)
    requires
        0 <= m <= a.len(),
        m <= b.len(),
        forall|y: int| 0 <= y < m ==> a[y] == b[y],
    ensures
        sum_cols(a, m) == sum_cols(b, m),
    decreases m,
{
    if m > 0 {
        lemma_sum_cols_same(a, b, m - 1);
    }
}

proof fn lemma_sum_chosen_zeroed(ly: Seq<i128>, a: Seq<int>, n: int, k: int)
    requires
        0 <= n <= a.len(),
        0 <= k < ly.len(),
        forall|i: int| 0 <= i < n ==> 0 <= #[trigger] a[i] < ly.len() && a[i] != k,
    ensures
        sum_chosen(ly.update(k, 0), a, n) == sum_chosen(ly, a, n),
    decreases n,
{
    if n > 0 {
        lemma_sum_chosen_zeroed(ly, a, n - 1, k);
        assert(a[n - 1] != k);
    }
}

proof fn lemma_sum_chosen_bound(ly: Seq<i128>, a: Seq<int>, n: int, m: int)
    requires
        0 <= n <= a.len(),
        0 <= m <= ly.len(),
        forall|i: int| 0 <= i < n ==> 0 <= #[trigger] a[i] < m,
        forall|i: int, j: int| 0 <= i < n && 0 <= j < n && i != j ==> a[i] != a[j],
        forall|y: int| 0 <= y < m ==> #[trigger] ly[y] >= 0,
    ensures
        sum_chosen(ly, a, n) <= sum_cols(ly, m),
        (forall|y: int| 0 <= y < m && #[trigger] ly[y] != 0 ==> a.take(n).contains(y))
            ==> sum_chosen(ly, a, n) == sum_cols(ly, m),
    decreases n,
{
    if n == 0 {
        lemma_sum_cols_nonneg(ly, m);
        if forall|y: int| 0 <= y < m && #[trigger] ly[y] != 0 ==> a.take(n).contains(y) {
            lemma_sum_cols_same(ly, Seq::new(ly.len(), |y: int| 0i128), m);
            lemma_sum_cols_zero(Seq::new(ly.len(), |y: int| 0i128), m);
        }
    } else {
        let k = a[n - 1];
        let lz = ly.update(k, 0);
        assert forall|i: int| 0 <= i < n - 1 implies 0 <= #[trigger] a[i] < ly.len() && a[i] != k by {
            assert(a[i] != a[n - 1]);
        }
        lemma_sum_chosen_zeroed(ly, a, n - 1, k);
        lemma_sum_cols_zeroed(ly, m, k);
        lemma_sum_chosen_bound(lz, a, n - 1, m);
        if forall|y: int| 0 <= y < m && #[trigger] ly[y] != 0 ==> a.take(n).contains(y) {
            assert forall|y: int| 0 <= y < m && #[trigger] lz[y] != 0 implies a.take(n - 1).contains(y) by {
                assert(ly[y] != 0);
                assert(a.take(n).contains(y));
                let i = choose|i: int| 0 <= i < n && a.take(n)[i] == y;
                assert(i != n - 1);
                assert(a.take(n - 1)[i] == y);
            }
        }
    }
}

proof fn lemma_sum_cols_nonneg(ly: Seq<i128>, m: int)
    requires
        0 <= m <= ly.len(),
        forall|y: int| 0 <= y < m ==> #[trigger] ly[y] >= 0,
    ensures
        sum_cols(ly, m) >= 0,
    decreases m,
{
    if m > 0 {
        lemma_sum_cols_nonneg(ly, m - 1);
    }
}

proof fn lemma_sum_cols_zero(ly: Seq<i128>, m: int)
    requires
        0 <= m <= ly.len(),
        forall|y: int| 0 <= y < m ==> #[trigger] ly[y] == 0,
    ensures
        sum_cols(ly, m) == 0,
    decreases m,
{
    if m > 0 {
        lemma_sum_cols_zero(ly, m - 1);
    }
}

/// Weak duality: when labels certify an assignment `a`, no assignment has a
/// larger total than `a`.
pub proof fn lemma_weak_duality(
    w: Seq<Vec<i64>>,
    lx: Seq<i128>,
    ly: Seq<i128>,
    a: Seq<int>,
    b: Seq<int>,
)
    requires
        is_matrix(w),
        certifies(w, lx, ly, a),
        is_assignment(w, b),
    ensures
        total(w, b) <= total(w, a),
{
    let n = w.len() as int;
    let m = ncols(w);
    lemma_total_bound(w, lx, ly, a, n);
    lemma_total_bound(w, lx, ly, b, n);
    lemma_sum_chosen_bound(ly, b, n, m);
    assert(a.take(n) =~= a);
    lemma_sum_chosen_bound(ly, a, n, m);
}

/// Negating every weight negates the total of every assignment, so an
/// assignment of largest total for the negated matrix has the smallest
/// total for the original one.
pub proof fn lemma_negation_swaps_order(w: Seq<Vec<i64>>, v: Seq<Vec<i64>>, a: Seq<int>)
    requires
        is_matrix(w),
        negated(w, v),
        is_assignment(w, a),
    ensures
        is_matrix(v),
        ncols(v) == ncols(w),
        total(v, a) == -total(w, a),
{
    lemma_negated_total(w, v, a, a.len() as int);
}

/// A negated matrix has the shape of the original.
pub proof fn lemma_negated_shape(w: Seq<Vec<i64>>, v: Seq<Vec<i64>>)
    requires
        is_matrix(w),
        negated(w, v),
    ensures
        is_matrix(v),
        ncols(v) == ncols(w),
{
    if w.len() > 0 {
        assert(v[0]@.len() == w[0]@.len());
    }
    assert forall|x: int| 0 <= x < v.len() implies (#[trigger] v[x]@).len() == ncols(v) by {
        assert(w[x]@.len() == ncols(w));
    }
}

proof fn lemma_negated_total(w: Seq<Vec<i64>>, v: Seq<Vec<i64>>, a: Seq<int>, n: int)
    requires
        is_matrix(w),
        negated(w, v),
        is_assignment(w, a),
        0 <= n <= a.len(),
    ensures
        is_matrix(v),
        ncols(v) == ncols(w),
        total_upto(v, a, n) == -total_upto(w, a, n),
    decreases n,
{
    lemma_negated_shape(w, v);
    if n > 0 {
        lemma_negated_total(w, v, a, n - 1);
        assert(w[n - 1]@.len() == ncols(w));
        assert(0 <= a[n - 1] < ncols(w));
    }
}

} // verus!
