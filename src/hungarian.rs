//! The solver: labelling initialiser, alternating-tree search, augmenter
//! and driver.
use vstd::prelude::*;
use vstd::set_lib::{lemma_int_range, lemma_len_subset, set_int_range};
use fixedbitset::FixedBitSet;
use crate::bitset::{bitset_len, bitset_ones, bits_clear, bits_contains, bits_insert, bits_with_capacity};
use crate::matching::{
    certifies, columns, feasible, in_row_order, is_assignment, is_matrix, is_max_assignment,
    is_min_assignment, lemma_negated_shape, lemma_negation_swaps_order, lemma_weak_duality, ncols,
    negated, solvable, total, wt,
};

verus! {

/// Bound on row labels: they stay within the range of `i64`.
pub open spec fn row_bound() -> int {
    0x8000_0000_0000_0000
}

/// Bound on column labels.
pub open spec fn col_bound() -> int {
    0x1_0000_0000_0000_0000
}

/// An optional index as an integer, `-1` for "none".
pub open spec fn idx(o: Option<usize>) -> int {
    match o {
        Some(v) => v as int,
        None => -1,
    }
}

/// The labelling and matching between searches, after the rows `0..k` have
/// been matched. `mc` is a set of at most `k` columns that holds every
/// matched column.
pub open spec fn state_inv(
    w: Seq<Vec<i64>>,
    lx: Seq<i128>,
    ly: Seq<i128>,
    xy: Seq<Option<usize>>,
    yx: Seq<Option<usize>>,
    k: int,
    mc: Set<int>,
) -> bool {
    let nx = w.len() as int;
    let ny = ncols(w);
    &&& solvable(w)
    &&& xy.len() == nx
    &&& yx.len() == ny
    &&& feasible(w, lx, ly)
    &&& forall|x: int|
        0 <= x < nx && idx(#[trigger] xy[x]) >= 0 ==> {
            &&& idx(xy[x]) < ny
            &&& idx(yx[idx(xy[x])]) == x
            &&& lx[x] + ly[idx(xy[x])] == wt(w, x, idx(xy[x]))
        }
    &&& forall|y: int|
        0 <= y < ny && idx(#[trigger] yx[y]) >= 0 ==> idx(yx[y]) < nx && idx(xy[idx(yx[y])]) == y
    &&& forall|x: int| 0 <= x < nx ==> (idx(#[trigger] xy[x]) >= 0 <==> x < k)
    &&& forall|y: int|
        0 <= y < ny ==> 0 <= #[trigger] ly[y] < col_bound() && (idx(yx[y]) < 0 ==> ly[y] == 0)
    &&& forall|x: int| 0 <= x < nx ==> -row_bound() <= #[trigger] lx[x] < row_bound()
    &&& mc.finite()
    &&& mc.len() <= k
    &&& forall|y: int| 0 <= y < ny && idx(#[trigger] yx[y]) >= 0 ==> mc.contains(y)
}

/// What the search hands to the augmenter: a tree of tight edges `alt`
/// (column to the row that reached it), rooted at row `k`, in which every
/// non-root row's matched column entered the tree earlier (by `order`), and
/// an unmatched column `yend` in the tree.
pub open spec fn tree_ready(
    w: Seq<Vec<i64>>,
    lx: Seq<i128>,
    ly: Seq<i128>,
    xy: Seq<Option<usize>>,
    yx: Seq<Option<usize>>,
    k: int,
    mc: Set<int>,
    alt: Seq<Option<usize>>,
    order: Seq<int>,
    yend: int,
) -> bool {
    let nx = w.len() as int;
    let ny = ncols(w);
    &&& state_inv(w, lx, ly, xy, yx, k, mc)
    &&& 0 <= k < nx
    &&& alt.len() == ny
    &&& order.len() == ny
    &&& 0 <= yend < ny
    &&& idx(alt[yend]) >= 0
    &&& idx(yx[yend]) < 0
    &&& forall|y: int| 0 <= y < ny && idx(#[trigger] alt[y]) >= 0 ==> path_step(w, lx, ly, xy, k, alt, order, y)
}

/// The tree edge into column `y` is tight, and its row is the root or a row
/// whose matched column entered the tree before `y`.
pub open spec fn path_step(
    w: Seq<Vec<i64>>,
    lx: Seq<i128>,
    ly: Seq<i128>,
    xy: Seq<Option<usize>>,
    k: int,
    alt: Seq<Option<usize>>,
    order: Seq<int>,
    y: int,
) -> bool {
    let x = idx(alt[y]);
    &&& 0 <= x < w.len()
    &&& lx[x] + ly[y] == wt(w, x, y)
    &&& order[y] >= 0
    &&& (x == k || {
        &&& 0 <= idx(xy[x]) < ncols(w)
        &&& idx(alt[idx(xy[x])]) >= 0
        &&& order[idx(xy[x])] < order[y]
    })
}

fn filled<T: Copy>(v: T, n: usize) -> (r: Vec<T>)
    ensures
        r@.len() == n,
        forall|i: int| 0 <= i < n ==> r@[i] == v,
{
    let mut r: Vec<T> = Vec::new();
    let mut i: usize = 0;
    while i < n
        invariant
            i <= n,
            r@.len() == i,
            forall|j: int| 0 <= j < i ==> r@[j] == v,
        decreases n - i,
    {
        r.push(v);
        i += 1;
    }
    r
}

/// Initial row labels: each row's largest weight.
fn init_labels(weights: &Vec<Vec<i64>>, ny: usize) -> (lx: Vec<i128>)
    requires
        is_matrix(weights@),
        ny == ncols(weights@),
        weights@.len() > 0 ==> ny > 0,
    ensures
        lx@.len() == weights@.len(),
        forall|x: int, y: int|
            0 <= x < weights@.len() && 0 <= y < ny ==> lx@[x] >= #[trigger] wt(weights@, x, y),
        forall|x: int| 0 <= x < weights@.len() ==> -row_bound() <= #[trigger] lx@[x] < row_bound(),
{
    let nx = weights.len();
    let mut lx: Vec<i128> = Vec::new();
    let mut x: usize = 0;
    while x < nx
        invariant
            x <= nx,
            nx == weights@.len(),
            is_matrix(weights@),
            ny == ncols(weights@),
            nx > 0 ==> ny > 0,
            lx@.len() == x,
            forall|i: int, y: int| 0 <= i < x && 0 <= y < ny ==> lx@[i] >= #[trigger] wt(weights@, i, y),
            forall|i: int| 0 <= i < x ==> -row_bound() <= #[trigger] lx@[i] < row_bound(),
        decreases nx - x,
    {
        let row = &weights[x];
        assert(row@.len() == ny);
        let mut best: i64 = row[0];
        let ghost mut at: int = 0;
        let mut y: usize = 1;
        while y < ny
            invariant
                1 <= y <= ny,
                row@.len() == ny,
                row == weights@[x as int],
                0 <= at < ny,
                best == row@[at],
                forall|j: int| 0 <= j < y ==> best >= #[trigger] row@[j],
            decreases ny - y,
        {
            if row[y] > best {
                best = row[y];
                proof {
                    at = y as int;
                }
            }
            y += 1;
        }
        lx.push(best as i128);
        proof {
            assert(lx@[x as int] == wt(weights@, x as int, at));
            assert forall|y: int| 0 <= y < ny implies lx@[x as int] >= #[trigger] wt(weights@, x as int, y) by {
                assert(best >= row@[y]);
            }
        }
        x += 1;
    }
    lx
}

/// Reverses the matching along the tree path that ends at the unmatched
/// column `yend`, which matches the root row `k`.
fn augment(
    xy: &mut Vec<Option<usize>>,
    yx: &mut Vec<Option<usize>>,
    alt: &Vec<Option<usize>>,
    yend: usize,
    root: usize,
    Ghost(w): Ghost<Seq<Vec<i64>>>,
    Ghost(lx): Ghost<Seq<i128>>,
    Ghost(ly): Ghost<Seq<i128>>,
    Ghost(mc): Ghost<Set<int>>,
    Ghost(order): Ghost<Seq<int>>,
)
    requires
        tree_ready(w, lx, ly, old(xy)@, old(yx)@, root as int, mc, alt@, order, yend as int),
    ensures
        state_inv(w, lx, ly, final(xy)@, final(yx)@, root + 1, mc.insert(yend as int)),
{
    let ghost nx = w.len() as int;
    let ghost ny = ncols(w);
    let ghost k = root as int;
    let ghost mc2 = mc.insert(yend as int);
    let mut c: usize = yend;
    loop
        invariant_except_break
            k == root,
            nx == w.len(),
            ny == ncols(w),
            mc2 == mc.insert(yend as int),
            solvable(w),
            feasible(w, lx, ly),
            xy@.len() == nx,
            yx@.len() == ny,
            alt@.len() == ny,
            order.len() == ny,
            0 <= k < nx,
            0 <= c < ny,
            idx(alt@[c as int]) >= 0,
            c == yend || idx(yx@[c as int]) >= 0,
            forall|x: int| 0 <= x < nx ==> idx(#[trigger] xy@[x]) != c,
            forall|x: int|
                0 <= x < nx && idx(#[trigger] xy@[x]) >= 0 ==> {
                    &&& idx(xy@[x]) < ny
                    &&& idx(yx@[idx(xy@[x])]) == x
                    &&& lx[x] + ly[idx(xy@[x])] == wt(w, x, idx(xy@[x]))
                },
            forall|y: int|
                0 <= y < ny && y != c && idx(#[trigger] yx@[y]) >= 0 ==> idx(yx@[y]) < nx && idx(xy@[idx(yx@[y])]) == y,
            forall|x: int| 0 <= x < nx ==> (idx(#[trigger] xy@[x]) >= 0 <==> x < k),
            forall|y: int|
                0 <= y < ny ==> 0 <= #[trigger] ly[y] < col_bound() && (idx(yx@[y]) < 0 ==> ly[y] == 0),
            forall|x: int| 0 <= x < nx ==> -row_bound() <= #[trigger] lx[x] < row_bound(),
            mc2.finite(),
            mc2.len() <= k + 1,
            forall|y: int| 0 <= y < ny && idx(#[trigger] yx@[y]) >= 0 ==> mc2.contains(y),
            forall|y: int| 0 <= y < ny && idx(#[trigger] alt@[y]) >= 0 ==> {
                let x = idx(alt@[y]);
                &&& 0 <= x < nx
                &&& lx[x] + ly[y] == wt(w, x, y)
                &&& order[y] >= 0
            },
            forall|y: int|
                0 <= y < ny && idx(#[trigger] alt@[y]) >= 0 && order[y] <= order[c as int]
                    ==> path_step(w, lx, ly, xy@, k, alt@, order, y),
        ensures
            state_inv(w, lx, ly, xy@, yx@, k + 1, mc2),
        decreases order[c as int],
    {
        let x = alt[c].unwrap();
        let prec = xy[x];
        let ghost c0 = c as int;
        let ghost xy0 = xy@;
        let ghost yx0 = yx@;
        assert(idx(alt@[c0]) == x);
        assert(path_step(w, lx, ly, xy0, k, alt@, order, c0));
        yx.set(c, Some(x));
        xy.set(x, Some(c));
        assert(mc2.contains(yend as int));
        assert forall|y: int| 0 <= y < ny && idx(#[trigger] yx@[y]) >= 0 implies mc2.contains(y) by {
            if y != c0 {
                assert(idx(yx0[y]) >= 0);
            }
        }
        match prec {
            None => {
                assert(x as int == k);
                assert forall|y: int|
                    0 <= y < ny && y != c0 && idx(#[trigger] yx@[y]) >= 0 implies idx(yx@[y]) < nx && idx(xy@[idx(yx@[y])]) == y by {
                    assert(idx(yx0[y]) != k);
                }
                assert forall|xx: int|
                    0 <= xx < nx && idx(#[trigger] xy@[xx]) >= 0 implies {
                        &&& idx(xy@[xx]) < ny
                        &&& idx(yx@[idx(xy@[xx])]) == xx
                        &&& lx[xx] + ly[idx(xy@[xx])] == wt(w, xx, idx(xy@[xx]))
                    } by {
                    if xx != x {
                        assert(idx(xy0[xx]) != c0);
                    }
                }
                assert(mc2.len() <= k + 1);
                assert forall|y: int|
                    0 <= y < ny && idx(#[trigger] yx@[y]) >= 0 implies idx(yx@[y]) < nx && idx(xy@[idx(yx@[y])]) == y by {
                    if y == c0 {
                        assert(idx(yx@[c0]) == k && idx(xy@[k]) == c0);
                    }
                }
                assert forall|xx: int| 0 <= xx < nx implies (idx(#[trigger] xy@[xx]) >= 0 <==> xx < k + 1) by {
                    if xx != k {
                        assert(xy@[xx] == xy0[xx]);
                    }
                }
                break;
            },
            Some(p) => {
                assert(0 <= p < ny);
                assert(idx(yx0[p as int]) == x);
                assert forall|xx: int| 0 <= xx < nx implies idx(#[trigger] xy@[xx]) != p by {
                    if xx != x && idx(xy0[xx]) == p {
                        assert(idx(yx0[idx(xy0[xx])]) == xx);
                    }
                }
                assert forall|y: int|
                    0 <= y < ny && y != p && idx(#[trigger] yx@[y]) >= 0 implies idx(yx@[y]) < nx && idx(xy@[idx(yx@[y])]) == y by {
                    if y != c0 {
                        assert(idx(yx0[y]) != x);
                    }
                }
                assert forall|y: int|
                    0 <= y < ny && idx(#[trigger] alt@[y]) >= 0 && order[y] <= order[p as int]
                        implies path_step(w, lx, ly, xy@, k, alt@, order, y) by {
                    assert(path_step(w, lx, ly, xy0, k, alt@, order, y));
                }
                c = p;
            },
        }
    }
}


/// For a column outside the tree, `slack[y]` is the smallest margin
/// `lx[x] + ly[y] - w[x][y]` over the tree rows, reached at row `slackx[y]`.
pub open spec fn slack_ok(
    w: Seq<Vec<i64>>,
    lx: Seq<i128>,
    ly: Seq<i128>,
    sset: Set<int>,
    slack: Seq<i128>,
    slackx: Seq<usize>,
    y: int,
) -> bool {
    let sx = slackx[y] as int;
    &&& 0 <= sx < w.len()
    &&& sset.contains(sx)
    &&& slack[y] == lx[sx] + ly[y] - wt(w, sx, y)
    &&& forall|x: int| #[trigger] sset.contains(x) ==> slack[y] <= lx[x] + ly[y] - wt(w, x, y)
}

/// The state while the tree rooted at row `k` grows: `sset` holds its rows,
/// `tset` its columns, `order[y]` when column `y` entered it.
pub open spec fn search_inv(
    w: Seq<Vec<i64>>,
    lx: Seq<i128>,
    ly: Seq<i128>,
    xy: Seq<Option<usize>>,
    yx: Seq<Option<usize>>,
    k: int,
    mc: Set<int>,
    alt: Seq<Option<usize>>,
    sset: Set<int>,
    tset: Set<int>,
    order: Seq<int>,
    slack: Seq<i128>,
    slackx: Seq<usize>,
) -> bool {
    let nx = w.len() as int;
    let ny = ncols(w);
    &&& state_inv(w, lx, ly, xy, yx, k, mc)
    &&& 0 <= k < nx
    &&& alt.len() == ny
    &&& slack.len() == ny
    &&& slackx.len() == ny
    &&& order.len() == ny
    &&& sset.finite()
    &&& tset.finite()
    &&& sset.len() == tset.len() + 1
    &&& sset.contains(k)
    &&& forall|x: int| #[trigger] sset.contains(x) ==> 0 <= x <= k
    &&& forall|x: int|
        #[trigger] sset.contains(x) && x != k ==> 0 <= idx(xy[x]) < ny && tset.contains(idx(xy[x]))
    &&& forall|y: int| #[trigger] tset.contains(y) ==> 0 <= y < ny
    &&& forall|y: int| 0 <= y < ny ==> (tset.contains(y) <==> idx(#[trigger] alt[y]) >= 0)
    &&& forall|y: int|
        0 <= y < ny && idx(#[trigger] alt[y]) >= 0 ==> {
            &&& path_step(w, lx, ly, xy, k, alt, order, y)
            &&& sset.contains(idx(alt[y]))
            &&& 0 <= idx(yx[y]) < nx
            &&& sset.contains(idx(yx[y]))
            &&& order[y] < tset.len()
        }
    &&& forall|y: int| 0 <= y < ny && idx(#[trigger] alt[y]) < 0 ==> slack_ok(w, lx, ly, sset, slack, slackx, y)
}

/// Lowers the slack of every column outside the tree to account for row `x2`.
fn update_slack(
    weights: &Vec<Vec<i64>>,
    ny: usize,
    x2: usize,
    lx: &Vec<i128>,
    ly: &Vec<i128>,
    alt: &Vec<Option<usize>>,
    slack: &mut Vec<i128>,
    slackx: &mut Vec<usize>,
    Ghost(sset): Ghost<Set<int>>,
)
    requires
        is_matrix(weights@),
        ny == ncols(weights@),
        x2 < weights@.len(),
        lx@.len() == weights@.len(),
        ly@.len() == ny,
        alt@.len() == ny,
        old(slack)@.len() == ny,
        old(slackx)@.len() == ny,
        forall|x: int| 0 <= x < weights@.len() ==> -row_bound() <= #[trigger] lx@[x] < row_bound(),
        forall|y: int| 0 <= y < ny ==> 0 <= #[trigger] ly@[y] < col_bound(),
        forall|y: int|
            0 <= y < ny && idx(#[trigger] alt@[y]) < 0 ==> slack_ok(weights@, lx@, ly@, sset, old(slack)@, old(slackx)@, y),
    ensures
        final(slack)@.len() == ny,
        final(slackx)@.len() == ny,
        forall|y: int|
            0 <= y < ny && idx(#[trigger] alt@[y]) < 0 ==> slack_ok(
                weights@,
                lx@,
                ly@,
                sset.insert(x2 as int),
                final(slack)@,
                final(slackx)@,
                y,
            ),
{
    let ghost s2 = sset.insert(x2 as int);
    let row = &weights[x2];
    assert(row@.len() == ny);
    let mut y: usize = 0;
    while y < ny
        invariant
            y <= ny,
            is_matrix(weights@),
            ny == ncols(weights@),
            x2 < weights@.len(),
            row == weights@[x2 as int],
            row@.len() == ny,
            s2 == sset.insert(x2 as int),
            lx@.len() == weights@.len(),
            ly@.len() == ny,
            alt@.len() == ny,
            slack@.len() == ny,
            slackx@.len() == ny,
            forall|x: int| 0 <= x < weights@.len() ==> -row_bound() <= #[trigger] lx@[x] < row_bound(),
            forall|y: int| 0 <= y < ny ==> 0 <= #[trigger] ly@[y] < col_bound(),
            forall|j: int|
                0 <= j < y && idx(#[trigger] alt@[j]) < 0 ==> slack_ok(weights@, lx@, ly@, s2, slack@, slackx@, j),
            forall|j: int|
                y <= j < ny && idx(#[trigger] alt@[j]) < 0 ==> slack_ok(weights@, lx@, ly@, sset, slack@, slackx@, j),
        decreases ny - y,
    {
        if alt[y].is_none() {
            let ghost yi = y as int;
            assert(slack_ok(weights@, lx@, ly@, sset, slack@, slackx@, yi));
            let a: i128 = lx[x2] + ly[y] - row[y] as i128;
            if slack[y] > a {
                slack.set(y, a);
                slackx.set(y, x2);
            }
            assert(slack_ok(weights@, lx@, ly@, s2, slack@, slackx@, yi)) by {
                assert forall|x: int| #[trigger] s2.contains(x) implies slack@[yi] <= lx@[x] + ly@[yi] - wt(weights@, x, yi) by {
                    if x != x2 {
                        assert(sset.contains(x));
                    }
                }
            }
        }
        y += 1;
    }
}


/// Moves `delta` from the tree rows' labels to the tree columns' labels, and
/// takes it off the slack of every column outside the tree.
fn relax(
    s: &FixedBitSet,
    nx: usize,
    ny: usize,
    alt: &Vec<Option<usize>>,
    lx: &mut Vec<i128>,
    ly: &mut Vec<i128>,
    slack: &mut Vec<i128>,
    delta: i128,
)
    requires
        old(lx)@.len() == nx,
        old(ly)@.len() == ny,
        alt@.len() == ny,
        old(slack)@.len() == ny,
        0 <= delta < col_bound() * 4,
        forall|x: int| 0 <= x < nx ==> -row_bound() <= #[trigger] old(lx)@[x] < row_bound(),
        forall|y: int| 0 <= y < ny ==> 0 <= #[trigger] old(ly)@[y] < col_bound(),
        forall|y: int|
            0 <= y < ny && idx(#[trigger] alt@[y]) < 0 ==> -col_bound() * 4 <= old(slack)@[y] <= col_bound() * 4,
    ensures
        final(lx)@.len() == nx,
        final(ly)@.len() == ny,
        final(slack)@.len() == ny,
        forall|x: int|
            0 <= x < nx ==> #[trigger] final(lx)@[x] == if bitset_ones(*s).contains(x) {
                old(lx)@[x] - delta
            } else {
                old(lx)@[x] as int
            },
        forall|y: int|
            0 <= y < ny ==> #[trigger] final(ly)@[y] == if idx(alt@[y]) >= 0 {
                old(ly)@[y] + delta
            } else {
                old(ly)@[y] as int
            },
        forall|y: int|
            0 <= y < ny ==> #[trigger] final(slack)@[y] == if idx(alt@[y]) < 0 {
                old(slack)@[y] - delta
            } else {
                old(slack)@[y] as int
            },
{
    let ghost lx0 = lx@;
    let ghost ly0 = ly@;
    let ghost slack0 = slack@;
    let mut x: usize = 0;
    while x < nx
        invariant
            x <= nx,
            lx@.len() == nx,
            lx0.len() == nx,
            0 <= delta < col_bound() * 4,
            forall|i: int| 0 <= i < nx ==> -row_bound() <= #[trigger] lx0[i] < row_bound(),
            forall|i: int|
                0 <= i < x ==> #[trigger] lx@[i] == if bitset_ones(*s).contains(i) {
                    lx0[i] - delta
                } else {
                    lx0[i] as int
                },
            forall|i: int| x <= i < nx ==> #[trigger] lx@[i] == lx0[i],
        decreases nx - x,
    {
        if bits_contains(s, x) {
            let v = lx[x] - delta;
            lx.set(x, v);
        }
        x += 1;
    }
    let mut y: usize = 0;
    while y < ny
        invariant
            y <= ny,
            ly@.len() == ny,
            slack@.len() == ny,
            alt@.len() == ny,
            ly0.len() == ny,
            slack0.len() == ny,
            0 <= delta < col_bound() * 4,
            forall|j: int| 0 <= j < ny ==> 0 <= #[trigger] ly0[j] < col_bound(),
            forall|j: int|
                0 <= j < ny && idx(#[trigger] alt@[j]) < 0 ==> -col_bound() * 4 <= slack0[j] <= col_bound() * 4,
            forall|j: int|
                0 <= j < y ==> #[trigger] ly@[j] == if idx(alt@[j]) >= 0 {
                    ly0[j] + delta
                } else {
                    ly0[j] as int
                },
            forall|j: int|
                0 <= j < y ==> #[trigger] slack@[j] == if idx(alt@[j]) < 0 {
                    slack0[j] - delta
                } else {
                    slack0[j] as int
                },
            forall|j: int| y <= j < ny ==> #[trigger] ly@[j] == ly0[j],
            forall|j: int| y <= j < ny ==> #[trigger] slack@[j] == slack0[j],
        decreases ny - y,
    {
        if alt[y].is_some() {
            let v = ly[y] + delta;
            ly.set(y, v);
        } else {
            assert(idx(alt@[y as int]) < 0);
            let v = slack[y] - delta;
            slack.set(y, v);
        }
        y += 1;
    }
}

/// Some column is unmatched while fewer than `ny` rows are matched.
proof fn lemma_free_column(yx: Seq<Option<usize>>, mc: Set<int>, k: int, ny: int) -> (y0: int)
    requires
        yx.len() == ny,
        mc.finite(),
        mc.len() <= k < ny,
        forall|y: int| 0 <= y < ny && idx(#[trigger] yx[y]) >= 0 ==> mc.contains(y),
    ensures
        0 <= y0 < ny,
        idx(yx[y0]) < 0,
{
    if forall|y: int| 0 <= y < ny ==> idx(#[trigger] yx[y]) >= 0 {
        lemma_int_range(0, ny);
        assert forall|y: int| #[trigger] set_int_range(0, ny).contains(y) implies mc.contains(y) by {
            assert(idx(yx[y]) >= 0);
        }
        lemma_len_subset(set_int_range(0, ny), mc);
        assert(false);
        0
    } else {
        choose|y: int| 0 <= y < ny && idx(#[trigger] yx[y]) < 0
    }
}

/// The tree has fewer columns than the matrix: it has one fewer column than
/// rows, and its rows are among `0..=k`.
proof fn lemma_tree_small(sset: Set<int>, tset: Set<int>, k: int, ny: int)
    requires
        sset.finite(),
        sset.len() == tset.len() + 1,
        forall|x: int| #[trigger] sset.contains(x) ==> 0 <= x <= k,
        0 <= k < ny,
    ensures
        tset.len() < ny,
{
    lemma_int_range(0, k + 1);
    assert(sset.subset_of(set_int_range(0, k + 1)));
    lemma_len_subset(sset, set_int_range(0, k + 1));
}

/// Relaxing the labelling by the smallest slack outside the tree keeps every
/// invariant of the search.
proof fn lemma_relaxed(
    w: Seq<Vec<i64>>,
    lx0: Seq<i128>,
    ly0: Seq<i128>,
    lx1: Seq<i128>,
    ly1: Seq<i128>,
    xy: Seq<Option<usize>>,
    yx: Seq<Option<usize>>,
    k: int,
    mc: Set<int>,
    alt: Seq<Option<usize>>,
    sset: Set<int>,
    tset: Set<int>,
    order: Seq<int>,
    slack0: Seq<i128>,
    slack1: Seq<i128>,
    slackx: Seq<usize>,
    delta: int,
    y0: int,
)
    requires
        search_inv(w, lx0, ly0, xy, yx, k, mc, alt, sset, tset, order, slack0, slackx),
        0 <= delta,
        forall|y: int| 0 <= y < ncols(w) && idx(#[trigger] alt[y]) < 0 ==> delta <= slack0[y],
        0 <= y0 < ncols(w),
        idx(yx[y0]) < 0,
        lx1.len() == w.len(),
        ly1.len() == ncols(w),
        slack1.len() == ncols(w),
        forall|x: int|
            0 <= x < w.len() ==> #[trigger] lx1[x] == if sset.contains(x) { lx0[x] - delta } else { lx0[x] as int },
        forall|y: int|
            0 <= y < ncols(w) ==> #[trigger] ly1[y] == if idx(alt[y]) >= 0 { ly0[y] + delta } else { ly0[y] as int },
        forall|y: int|
            0 <= y < ncols(w) ==> #[trigger] slack1[y] == if idx(alt[y]) < 0 { slack0[y] - delta } else { slack0[y] as int },
    ensures
        search_inv(w, lx1, ly1, xy, yx, k, mc, alt, sset, tset, order, slack1, slackx),
{
    let nx = w.len() as int;
    let ny = ncols(w);
    assert(idx(alt[y0]) < 0);
    assert(slack_ok(w, lx0, ly0, sset, slack0, slackx, y0));
    assert forall|x: int| 0 <= x < nx implies -row_bound() <= #[trigger] lx1[x] < row_bound() by {
        if sset.contains(x) {
            assert(slack0[y0] <= lx0[x] + ly0[y0] - wt(w, x, y0));
            assert(w[x]@.len() == ny);
        }
    }
    assert forall|x: int, y: int| 0 <= x < nx && 0 <= y < ny implies lx1[x] + ly1[y] >= #[trigger] wt(w, x, y) by {
        assert(lx0[x] + ly0[y] >= wt(w, x, y));
        if sset.contains(x) && idx(alt[y]) < 0 {
            assert(slack_ok(w, lx0, ly0, sset, slack0, slackx, y));
        }
    }
    assert forall|x: int|
        0 <= x < nx && idx(#[trigger] xy[x]) >= 0 implies {
            &&& idx(xy[x]) < ny
            &&& idx(yx[idx(xy[x])]) == x
            &&& lx1[x] + ly1[idx(xy[x])] == wt(w, x, idx(xy[x]))
        } by {
        let y = idx(xy[x]);
        if sset.contains(x) {
            assert(x != k);
            assert(tset.contains(y));
        } else if idx(alt[y]) >= 0 {
            assert(sset.contains(idx(yx[y])));
        }
    }
    assert forall|y: int| 0 <= y < ny implies 0 <= #[trigger] ly1[y] < col_bound() && (idx(yx[y]) < 0 ==> ly1[y] == 0) by {
        if idx(alt[y]) >= 0 {
            let x = idx(yx[y]);
            assert(sset.contains(x));
            assert(idx(xy[x]) == y);
            assert(-row_bound() <= lx1[x]);
            assert(w[x]@.len() == ny);
        }
    }
    assert forall|y: int| 0 <= y < ny && idx(#[trigger] alt[y]) >= 0 implies {
        &&& path_step(w, lx1, ly1, xy, k, alt, order, y)
        &&& sset.contains(idx(alt[y]))
        &&& 0 <= idx(yx[y]) < nx
        &&& sset.contains(idx(yx[y]))
        &&& order[y] < tset.len()
    } by {
        assert(path_step(w, lx0, ly0, xy, k, alt, order, y));
    }
    assert forall|y: int| 0 <= y < ny && idx(#[trigger] alt[y]) < 0 implies slack_ok(w, lx1, ly1, sset, slack1, slackx, y) by {
        assert(slack_ok(w, lx0, ly0, sset, slack0, slackx, y));
        assert forall|x: int| #[trigger] sset.contains(x) implies slack1[y] <= lx1[x] + ly1[y] - wt(w, x, y) by {
            assert(0 <= x < nx);
        }
    }
}


/// Column `yb`, reached by a tight edge from `slackx[yb]`, joins the tree;
/// it is unmatched, so the tree is ready for augmenting.
proof fn lemma_reach_free(
    w: Seq<Vec<i64>>,
    lx: Seq<i128>,
    ly: Seq<i128>,
    xy: Seq<Option<usize>>,
    yx: Seq<Option<usize>>,
    k: int,
    mc: Set<int>,
    alt: Seq<Option<usize>>,
    sset: Set<int>,
    tset: Set<int>,
    order: Seq<int>,
    slack: Seq<i128>,
    slackx: Seq<usize>,
    yb: int,
)
    requires
        search_inv(w, lx, ly, xy, yx, k, mc, alt, sset, tset, order, slack, slackx),
        0 <= yb < ncols(w),
        idx(alt[yb]) < 0,
        slack[yb] == 0,
        idx(yx[yb]) < 0,
    ensures
        tree_ready(
            w,
            lx,
            ly,
            xy,
            yx,
            k,
            mc,
            alt.update(yb, Some(slackx[yb])),
            order.update(yb, tset.len() as int),
            yb,
        ),
{
    let ny = ncols(w);
    let alt1 = alt.update(yb, Some(slackx[yb]));
    let order1 = order.update(yb, tset.len() as int);
    assert(slack_ok(w, lx, ly, sset, slack, slackx, yb));
    assert forall|y: int| 0 <= y < ny && idx(#[trigger] alt1[y]) >= 0 implies path_step(w, lx, ly, xy, k, alt1, order1, y) by {
        if y != yb {
            assert(path_step(w, lx, ly, xy, k, alt, order, y));
            assert(order[y] < tset.len());
            let x = idx(alt[y]);
            if x != k {
                assert(idx(xy[x]) != yb);
            }
        } else {
            let x = slackx[yb] as int;
            if x != k {
                let y2 = idx(xy[x]);
                assert(tset.contains(y2));
                assert(idx(alt[y2]) >= 0);
                assert(order[y2] < tset.len());
            }
        }
    }
}

/// Column `yb`, reached by a tight edge from `slackx[yb]`, joins the tree
/// together with its matched row, and the slack has been brought up to date.
proof fn lemma_grow(
    w: Seq<Vec<i64>>,
    lx: Seq<i128>,
    ly: Seq<i128>,
    xy: Seq<Option<usize>>,
    yx: Seq<Option<usize>>,
    k: int,
    mc: Set<int>,
    alt: Seq<Option<usize>>,
    sset: Set<int>,
    tset: Set<int>,
    order: Seq<int>,
    slack: Seq<i128>,
    slackx: Seq<usize>,
    yb: int,
    slack1: Seq<i128>,
    slackx1: Seq<usize>,
)
    requires
        search_inv(w, lx, ly, xy, yx, k, mc, alt, sset, tset, order, slack, slackx),
        0 <= yb < ncols(w),
        idx(alt[yb]) < 0,
        slack[yb] == 0,
        idx(yx[yb]) >= 0,
        slack1.len() == ncols(w),
        slackx1.len() == ncols(w),
        forall|y: int|
            0 <= y < ncols(w) && idx(#[trigger] alt.update(yb, Some(slackx[yb]))[y]) < 0 ==> slack_ok(
                w,
                lx,
                ly,
                sset.insert(idx(yx[yb])),
                slack1,
                slackx1,
                y,
            ),
    ensures
        !sset.contains(idx(yx[yb])),
        search_inv(
            w,
            lx,
            ly,
            xy,
            yx,
            k,
            mc,
            alt.update(yb, Some(slackx[yb])),
            sset.insert(idx(yx[yb])),
            tset.insert(yb),
            order.update(yb, tset.len() as int),
            slack1,
            slackx1,
        ),
{
    let nx = w.len() as int;
    let ny = ncols(w);
    let alt1 = alt.update(yb, Some(slackx[yb]));
    let order1 = order.update(yb, tset.len() as int);
    let x2 = idx(yx[yb]);
    let s1 = sset.insert(x2);
    let t1 = tset.insert(yb);
    assert(slack_ok(w, lx, ly, sset, slack, slackx, yb));
    assert(!tset.contains(yb));
    assert(0 <= x2 < nx && idx(xy[x2]) == yb);
    assert(x2 < k);
    if sset.contains(x2) {
        assert(tset.contains(idx(xy[x2])));
    }
    assert forall|x: int| #[trigger] s1.contains(x) && x != k implies 0 <= idx(xy[x]) < ny && t1.contains(idx(xy[x])) by {
        if x != x2 {
            assert(sset.contains(x));
        }
    }
    assert forall|y: int| 0 <= y < ny implies (t1.contains(y) <==> idx(#[trigger] alt1[y]) >= 0) by {
        assert(tset.contains(y) <==> idx(alt[y]) >= 0);
    }
    assert forall|y: int|
        0 <= y < ny && idx(#[trigger] alt1[y]) >= 0 implies {
            &&& path_step(w, lx, ly, xy, k, alt1, order1, y)
            &&& s1.contains(idx(alt1[y]))
            &&& 0 <= idx(yx[y]) < nx
            &&& s1.contains(idx(yx[y]))
            &&& order1[y] < t1.len()
        } by {
        if y != yb {
            assert(path_step(w, lx, ly, xy, k, alt, order, y));
            assert(order[y] < tset.len());
            let x = idx(alt[y]);
            if x != k {
                assert(idx(xy[x]) != yb);
            }
        } else {
            let x = slackx[yb] as int;
            if x != k {
                let y2 = idx(xy[x]);
                assert(tset.contains(y2));
                assert(idx(alt[y2]) >= 0);
                assert(order[y2] < tset.len());
            }
        }
    }
}


/// Grows an alternating tree of tight edges from the unmatched row `root`,
/// relaxing the labelling whenever no tight edge leaves the tree, until the
/// tree reaches an unmatched column, which is returned. Among the columns
/// outside the tree, the one of least slack enters next; ties go to the
/// lowest column index.
fn search(
    weights: &Vec<Vec<i64>>,
    ny: usize,
    root: usize,
    lx: &mut Vec<i128>,
    ly: &mut Vec<i128>,
    xy: &Vec<Option<usize>>,
    yx: &Vec<Option<usize>>,
    s: &mut FixedBitSet,
    alt: &mut Vec<Option<usize>>,
    slack: &mut Vec<i128>,
    slackx: &mut Vec<usize>,
    Ghost(mc): Ghost<Set<int>>,
) -> (r: (usize, Ghost<Seq<int>>))
    requires
        state_inv(weights@, old(lx)@, old(ly)@, xy@, yx@, root as int, mc),
        root < weights@.len(),
        ny == ncols(weights@),
        bitset_len(*old(s)) == weights@.len(),
        old(alt)@.len() == ny,
        old(slack)@.len() == ny,
        old(slackx)@.len() == ny,
    ensures
        tree_ready(weights@, final(lx)@, final(ly)@, xy@, yx@, root as int, mc, final(alt)@, r.1@, r.0 as int),
        bitset_len(*final(s)) == weights@.len(),
        final(alt)@.len() == ny,
        final(slack)@.len() == ny,
        final(slackx)@.len() == ny,
{
    let nx = weights.len();
    let ghost k = root as int;
    bits_clear(s);
    bits_insert(s, root);
    let ghost mut sset = Set::<int>::empty().insert(k);
    let row = &weights[root];
    assert(row@.len() == ny);
    let mut y: usize = 0;
    while y < ny
        invariant
            y <= ny,
            nx == weights@.len(),
            ny == ncols(weights@),
            k == root,
            root < nx,
            is_matrix(weights@),
            row == weights@[k],
            row@.len() == ny,
            alt@.len() == ny,
            slack@.len() == ny,
            slackx@.len() == ny,
            lx@.len() == nx,
            ly@.len() == ny,
            sset == Set::<int>::empty().insert(k),
            forall|x: int| 0 <= x < nx ==> -row_bound() <= #[trigger] lx@[x] < row_bound(),
            forall|j: int| 0 <= j < ny ==> 0 <= #[trigger] ly@[j] < col_bound(),
            forall|j: int|
                0 <= j < y ==> #[trigger] alt@[j] == None::<usize> && slack_ok(
                    weights@,
                    lx@,
                    ly@,
                    sset,
                    slack@,
                    slackx@,
                    j,
                ),
        decreases ny - y,
    {
        alt.set(y, None);
        let v: i128 = lx[root] + ly[y] - row[y] as i128;
        slack.set(y, v);
        slackx.set(y, root);
        proof {
            let yi = y as int;
            assert forall|x: int| #[trigger] sset.contains(x) implies slack@[yi] <= lx@[x] + ly@[yi] - wt(weights@, x, yi) by {
                assert(x == k);
            }
            assert(slack_ok(weights@, lx@, ly@, sset, slack@, slackx@, yi));
        }
        y += 1;
    }
    let ghost mut tset = Set::<int>::empty();
    let ghost mut order = Seq::new(ny as nat, |i: int| 0int);
    proof {
        assert forall|y: int| 0 <= y < ny implies (tset.contains(y) <==> idx(#[trigger] alt@[y]) >= 0) by {
            assert(alt@[y] == None::<usize>);
        }
        assert(bitset_ones(*s) =~= sset);
    }
    loop
        invariant
            nx == weights@.len(),
            ny == ncols(weights@),
            k == root,
            search_inv(weights@, lx@, ly@, xy@, yx@, k, mc, alt@, sset, tset, order, slack@, slackx@),
            bitset_ones(*s) == sset,
            bitset_len(*s) == nx,
        decreases ny - tset.len(),
    {
        let mut best: Option<usize> = None;
        let mut yy: usize = 0;
        while yy < ny
            invariant
                yy <= ny,
                alt@.len() == ny,
                slack@.len() == ny,
                idx(best) < yy,
                best is Some ==> idx(alt@[idx(best)]) < 0,
                best is Some ==> forall|j: int|
                    0 <= j < yy && idx(#[trigger] alt@[j]) < 0 ==> slack@[idx(best)] <= slack@[j],
                best is None ==> forall|j: int| 0 <= j < yy ==> idx(#[trigger] alt@[j]) >= 0,
            decreases ny - yy,
        {
            if alt[yy].is_none() {
                match best {
                    None => {
                        best = Some(yy);
                    },
                    Some(b) => {
                        if slack[yy] < slack[b] {
                            best = Some(yy);
                        }
                    },
                }
            }
            yy += 1;
        }
        proof {
            lemma_tree_small(sset, tset, k, ny as int);
            if best is None {
                lemma_int_range(0, ny as int);
                assert forall|y: int| #[trigger] set_int_range(0, ny as int).contains(y) implies tset.contains(y) by {
                    assert(idx(alt@[y]) >= 0);
                }
                lemma_len_subset(set_int_range(0, ny as int), tset);
            }
        }
        let yb = best.unwrap();
        let xb = slackx[yb];
        let delta = slack[yb];
        let ghost y0 = lemma_free_column(yx@, mc, k, ny as int);
        proof {
            assert(slack_ok(weights@, lx@, ly@, sset, slack@, slackx@, yb as int));
            assert(lx@[xb as int] + ly@[yb as int] >= wt(weights@, xb as int, yb as int));
            assert(weights@[xb as int]@.len() == ny);
        }
        if delta > 0 {
            let ghost lx0 = lx@;
            let ghost ly0 = ly@;
            let ghost slack0 = slack@;
            proof {
                assert forall|y: int|
                    0 <= y < ny && idx(#[trigger] alt@[y]) < 0 implies -col_bound() * 4 <= slack@[y] <= col_bound() * 4 by {
                    assert(slack_ok(weights@, lx@, ly@, sset, slack@, slackx@, y));
                    let sx = slackx@[y] as int;
                    assert(weights@[sx]@.len() == ny);
                }
            }
            relax(s, nx, ny, alt, lx, ly, slack, delta);
            proof {
                lemma_relaxed(
                    weights@,
                    lx0,
                    ly0,
                    lx@,
                    ly@,
                    xy@,
                    yx@,
                    k,
                    mc,
                    alt@,
                    sset,
                    tset,
                    order,
                    slack0,
                    slack@,
                    slackx@,
                    delta as int,
                    y0,
                );
            }
        }
        let ghost alt0 = alt@;
        let ghost slack0 = slack@;
        let ghost slackx0 = slackx@;
        alt.set(yb, Some(xb));
        match yx[yb] {
            None => {
                proof {
                    lemma_reach_free(weights@, lx@, ly@, xy@, yx@, k, mc, alt0, sset, tset, order, slack@, slackx@, yb as int);
                    order = order.update(yb as int, tset.len() as int);
                }
                return (yb, Ghost(order));
            },
            Some(x2) => {
                proof {
                    assert(idx(yx@[yb as int]) == x2);
                    assert(0 <= x2 < nx);
                }
                bits_insert(s, x2);
                update_slack(weights, ny, x2, lx, ly, alt, slack, slackx, Ghost(sset));
                proof {
                    lemma_grow(weights@, lx@, ly@, xy@, yx@, k, mc, alt0, sset, tset, order, slack0, slackx0, yb as int, slack@, slackx@);
                    order = order.update(yb as int, tset.len() as int);
                    sset = sset.insert(x2 as int);
                    tset = tset.insert(yb as int);
                }
            },
        }
    }
}


/// A matching together with the labels that certify it optimal.
pub struct Labelled {
    /// One `(row, column)` pair per row, in row order.
    pub pairs: Vec<(usize, usize)>,
    /// The final row labels.
    pub lx: Vec<i128>,
    /// The final column labels.
    pub ly: Vec<i128>,
}

/// Solves the assignment problem for `weights` (rows of equal length, no
/// more rows than columns), maximising the total weight, and returns the
/// matching with the final labelling: the labels bound every edge, are tight
/// on every matched edge, and the column labels are non-negative and zero on
/// every unmatched column.
pub fn kuhn_munkres_labelled(weights: &Vec<Vec<i64>>) -> (r: Labelled)
    requires
        solvable(weights@),
    ensures
        r.pairs@.len() == weights@.len(),
        in_row_order(r.pairs@),
        certifies(weights@, r.lx@, r.ly@, columns(r.pairs@)),
{
    let nx = weights.len();
    if nx == 0 {
        let r = Labelled { pairs: Vec::new(), lx: Vec::new(), ly: Vec::new() };
        proof {
            assert(columns(r.pairs@) =~= Seq::<int>::empty());
        }
        return r;
    }
    let ny = weights[0].len();
    let mut lx = init_labels(weights, ny);
    let mut ly: Vec<i128> = filled(0i128, ny);
    let mut xy: Vec<Option<usize>> = filled(None, nx);
    let mut yx: Vec<Option<usize>> = filled(None, ny);
    let mut s = bits_with_capacity(nx);
    let mut alt: Vec<Option<usize>> = filled(None, ny);
    let mut slack: Vec<i128> = filled(0i128, ny);
    let mut slackx: Vec<usize> = filled(0usize, ny);
    let ghost mut mc = Set::<int>::empty();
    let mut root: usize = 0;
    while root < nx
        invariant
            nx == weights@.len(),
            ny == ncols(weights@),
            root <= nx,
            state_inv(weights@, lx@, ly@, xy@, yx@, root as int, mc),
            bitset_len(s) == nx,
            alt@.len() == ny,
            slack@.len() == ny,
            slackx@.len() == ny,
        decreases nx - root,
    {
        let (yend, order) = search(
            weights,
            ny,
            root,
            &mut lx,
            &mut ly,
            &xy,
            &yx,
            &mut s,
            &mut alt,
            &mut slack,
            &mut slackx,
            Ghost(mc),
        );
        augment(&mut xy, &mut yx, &alt, yend, root, Ghost(weights@), Ghost(lx@), Ghost(ly@), Ghost(mc), order);
        proof {
            mc = mc.insert(yend as int);
        }
        root += 1;
    }
    let mut pairs: Vec<(usize, usize)> = Vec::new();
    let mut x: usize = 0;
    while x < nx
        invariant
            x <= nx,
            nx == weights@.len(),
            ny == ncols(weights@),
            state_inv(weights@, lx@, ly@, xy@, yx@, nx as int, mc),
            pairs@.len() == x,
            forall|i: int| 0 <= i < x ==> #[trigger] pairs@[i] == (i as usize, idx(xy@[i]) as usize),
        decreases nx - x,
    {
        assert(idx(xy@[x as int]) >= 0);
        let c = xy[x].unwrap();
        pairs.push((x, c));
        x += 1;
    }
    proof {
        let a = columns(pairs@);
        assert forall|i: int| 0 <= i < nx implies #[trigger] a[i] == idx(xy@[i]) by {
            assert(idx(xy@[i]) >= 0);
        }
        assert forall|i: int, j: int| 0 <= i < a.len() && 0 <= j < a.len() && i != j implies a[i] != a[j] by {
            assert(a[i] == idx(xy@[i]) && a[j] == idx(xy@[j]));
            assert(idx(xy@[i]) >= 0 && idx(xy@[j]) >= 0);
        }
        assert forall|y: int| 0 <= y < ny && #[trigger] ly@[y] != 0 implies a.contains(y) by {
            let x = idx(yx@[y]);
            assert(a[x] == idx(xy@[x]));
        }
        assert forall|xx: int| 0 <= xx < nx implies lx@[xx] + ly@[a[xx]] == #[trigger] wt(weights@, xx, a[xx]) by {
            assert(a[xx] == idx(xy@[xx]));
            assert(idx(xy@[xx]) >= 0);
        }
    }
    Labelled { pairs, lx, ly }
}

/// Solves the assignment problem for `weights` (rows of equal length, no
/// more rows than columns): every row gets a distinct column, the pairs come
/// in row order, and no assignment has a larger total weight.
pub fn kuhn_munkres(weights: &Vec<Vec<i64>>) -> (r: Vec<(usize, usize)>)
    requires
        solvable(weights@),
    ensures
        r@.len() == weights@.len(),
        in_row_order(r@),
        is_max_assignment(weights@, columns(r@)),
{
    let sol = kuhn_munkres_labelled(weights);
    proof {
        assert forall|b: Seq<int>| is_assignment(weights@, b) implies total(weights@, b) <= total(
            weights@,
            columns(sol.pairs@),
        ) by {
            lemma_weak_duality(weights@, sol.lx@, sol.ly@, columns(sol.pairs@), b);
        }
    }
    sol.pairs
}

/// A copy of `weights` with every entry negated.
pub fn negate_weights(weights: &Vec<Vec<i64>>) -> (r: Vec<Vec<i64>>)
    requires
        forall|x: int, y: int|
            0 <= x < weights@.len() && 0 <= y < weights@[x]@.len() ==> #[trigger] weights@[x]@[y] > i64::MIN,
    ensures
        negated(weights@, r@),
{
    let mut r: Vec<Vec<i64>> = Vec::new();
    let mut x: usize = 0;
    while x < weights.len()
        invariant
            x <= weights@.len(),
            r@.len() == x,
            forall|i: int, y: int|
                0 <= i < weights@.len() && 0 <= y < weights@[i]@.len() ==> #[trigger] weights@[i]@[y] > i64::MIN,
            forall|i: int| 0 <= i < x ==> (#[trigger] r@[i]@).len() == weights@[i]@.len(),
            forall|i: int, y: int|
                0 <= i < x && 0 <= y < weights@[i]@.len() ==> r@[i]@[y] == -(weights@[i]@[y] as int),
        decreases weights@.len() - x,
    {
        let row = &weights[x];
        let mut nrow: Vec<i64> = Vec::new();
        let mut y: usize = 0;
        while y < row.len()
            invariant
                y <= row@.len(),
                row == weights@[x as int],
                nrow@.len() == y,
                forall|j: int| 0 <= j < row@.len() ==> #[trigger] row@[j] > i64::MIN,
                forall|j: int| 0 <= j < y ==> #[trigger] nrow@[j] == -(row@[j] as int),
            decreases row@.len() - y,
        {
            assert(weights@[x as int]@[y as int] > i64::MIN);
            nrow.push(-row[y]);
            y += 1;
        }
        r.push(nrow);
        x += 1;
    }
    r
}

/// Solves the assignment problem for `weights` as a minimisation: every row
/// gets a distinct column, the pairs come in row order, and no assignment has
/// a smaller total weight. The weights are negated on a private copy and the
/// maximising solver does the work.
pub fn kuhn_munkres_min(weights: &Vec<Vec<i64>>) -> (r: Vec<(usize, usize)>)
    requires
        solvable(weights@),
        forall|x: int, y: int|
            0 <= x < weights@.len() && 0 <= y < weights@[x]@.len() ==> #[trigger] weights@[x]@[y] > i64::MIN,
    ensures
        r@.len() == weights@.len(),
        in_row_order(r@),
        is_min_assignment(weights@, columns(r@)),
{
    let neg = negate_weights(weights);
    proof {
        lemma_negated_shape(weights@, neg@);
    }
    let r = kuhn_munkres(&neg);
    proof {
        let a = columns(r@);
        assert(is_assignment(weights@, a));
        lemma_negation_swaps_order(weights@, neg@, a);
        assert forall|b: Seq<int>| is_assignment(weights@, b) implies total(weights@, a) <= total(weights@, b) by {
            lemma_negation_swaps_order(weights@, neg@, b);
            assert(is_assignment(neg@, b));
            assert(total(neg@, b) <= total(neg@, a));
        }
    }
    r
}

} // verus!
