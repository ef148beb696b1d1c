//! Minimum-cost assignment by the Hungarian algorithm, proved optimal.

use vstd::prelude::*;

verus! {

/// More than any reduced cost: a quarter of the largest number there is.
const INFINITY: i64 = 0x1fff_ffff_ffff_ffff;

/// Costs stay within this magnitude: the largest of which four together stay below
/// [`INFINITY`], as a reduced cost has to.
pub const COST_LIMIT: i64 = 0x07ff_ffff_ffff_ffff;

/// A square table of costs, each within [`COST_LIMIT`].
pub open spec fn square(cost: Seq<Vec<i64>>) -> bool {
    &&& forall|r: int| 0 <= r < cost.len() ==> (#[trigger] cost[r])@.len() == cost.len()
    &&& forall|r: int, c: int|
        0 <= r < cost.len() && 0 <= c < cost.len() ==> -COST_LIMIT <= #[trigger] cost[r]@[c]
            <= COST_LIMIT
}

/// A table whose costs are so small that four for each of its rows, added up, stay
/// below a quarter of the largest number is a table that can be assigned.
pub proof fn small_costs_fit(cost: Seq<Vec<i64>>)
    requires
        forall|r: int| 0 <= r < cost.len() ==> (#[trigger] cost[r])@.len() == cost.len(),
        forall|r: int, c: int|
            0 <= r < cost.len() && 0 <= c < cost.len() ==> -(i64::MAX / 4) < 4 * cost.len() * (
            #[trigger] cost[r]@[c]) < i64::MAX / 4,
    ensures
        square(cost),
{
    assert forall|r: int, c: int| 0 <= r < cost.len() && 0 <= c < cost.len() implies -COST_LIMIT
        <= #[trigger] cost[r]@[c] <= COST_LIMIT by {
        let n = cost.len() as int;
        let x = cost[r]@[c] as int;
        let q = i64::MAX / 4;
        assert(-q < 4 * n * x < q);
        assert(-q < 4 * x < q) by (nonlinear_arith)
            requires
                n >= 1,
                -q < 4 * n * x < q,
        ;
    }
}

/// The columns are distinct columns of a table with `n` of them.
pub open spec fn distinct_columns(columns: Seq<int>, n: int) -> bool {
    &&& forall|r: int| 0 <= r < columns.len() ==> 0 <= #[trigger] columns[r] < n
    &&& forall|r: int, s: int|
        0 <= r < s < columns.len() ==> #[trigger] columns[r] != #[trigger] columns[s]
}

/// Every row has a column and no two rows share one.
pub open spec fn assigns(columns: Seq<int>, n: int) -> bool {
    columns.len() == n && distinct_columns(columns, n)
}

/// The total cost of giving row `r` the column `columns[r]`, over all rows.
pub open spec fn total(cost: Seq<Vec<i64>>, columns: Seq<int>) -> int
    decreases columns.len(),
{
    if columns.len() == 0 {
        0
    } else {
        total(cost, columns.drop_last()) + cost[columns.len() - 1]@[columns.last()]
    }
}

/// Indices as mathematical integers.
pub open spec fn ints(v: Seq<usize>) -> Seq<int> {
    v.map_values(|x: usize| x as int)
}

// The algorithm's own state is indexed from one: row 0 and column 0 stand for
// "none", and column 0 holds the row that is being added.
spec fn reduced(cost: Seq<Vec<i64>>, u: Seq<i64>, v: Seq<i64>, i: int, j: int) -> int {
    cost[i - 1]@[j - 1] - u[i] - v[j]
}

spec fn sized(n: int, u: Seq<i64>, v: Seq<i64>, p: Seq<usize>) -> bool {
    u.len() == n + 1 && v.len() == n + 1 && p.len() == n + 1
}

/// The first `k` rows are matched to distinct columns along tight edges, and
/// the potentials are feasible for those rows. `col` holds each row's column.
spec fn matched(
    cost: Seq<Vec<i64>>,
    k: int,
    u: Seq<i64>,
    v: Seq<i64>,
    p: Seq<usize>,
    col: Seq<int>,
) -> bool {
    let n = cost.len() as int;
    &&& sized(n, u, v, p)
    &&& col.len() == n + 1
    &&& forall|j: int| 1 <= j <= n ==> #[trigger] p[j] <= k
    &&& forall|i: int| 1 <= i <= k ==> 1 <= #[trigger] col[i] <= n && p[col[i]] == i
    &&& forall|j: int| 1 <= j <= n && #[trigger] p[j] != 0 ==> col[p[j] as int] == j
    &&& forall|i: int, j: int|
        1 <= i <= k && 1 <= j <= n ==> #[trigger] reduced(cost, u, v, i, j) >= 0
    &&& forall|j: int|
        1 <= j <= n && #[trigger] p[j] != 0 ==> reduced(cost, u, v, p[j] as int, j) == 0
    &&& forall|j: int| 1 <= j <= n ==> #[trigger] v[j] <= 0
    &&& forall|j: int| 1 <= j <= n && #[trigger] p[j] == 0 ==> v[j] == 0
}

proof fn lemma_pigeonhole(f: spec_fn(int) -> int, a: int, b: int)
    requires
        0 <= a,
        0 <= b,
        forall|i: int| 1 <= i <= a ==> 1 <= #[trigger] f(i) <= b,
        forall|i: int, j: int| 1 <= i < j <= a ==> #[trigger] f(i) != #[trigger] f(j),
    ensures
        a <= b,
{
    let x = vstd::set_lib::set_int_range(1, a + 1);
    let y = vstd::set_lib::set_int_range(1, b + 1);
    vstd::set_lib::lemma_int_range(1, a + 1);
    vstd::set_lib::lemma_int_range(1, b + 1);
    assert(vstd::relations::injective_on(f, x)) by {
        assert forall|i: int, j: int|
            x.contains(i) && x.contains(j) && #[trigger] f(i) == #[trigger] f(j) implies i == j by {
            if i < j {
                assert(f(i) != f(j));
            }
            if j < i {
                assert(f(j) != f(i));
            }
        }
    }
    vstd::set_lib::lemma_map_size(x, x.map(f), f);
    assert(x.map(f).subset_of(y)) by {
        assert forall|z: int| x.map(f).contains(z) implies y.contains(z) by {
            let i = choose|i: int| x.contains(i) && f(i) == z;
            assert(1 <= f(i) <= b);
        }
    }
    vstd::set_lib::lemma_len_subset(x.map(f), y);
}

/// With fewer rows matched than there are columns, some column is free.
proof fn lemma_free_column(
    cost: Seq<Vec<i64>>,
    k: int,
    u: Seq<i64>,
    v: Seq<i64>,
    p: Seq<usize>,
    col: Seq<int>,
) -> (j: int)
    requires
        matched(cost, k, u, v, p, col),
        0 <= k < cost.len(),
    ensures
        1 <= j <= cost.len(),
        p[j] == 0,
{
    let n = cost.len() as int;
    if forall|j: int| 1 <= j <= n ==> #[trigger] p[j] != 0 {
        let f = |j: int| p[j] as int;
        assert forall|i: int, j: int| 1 <= i < j <= n implies #[trigger] f(i) != #[trigger] f(j) by {
            assert(col[p[i] as int] == i);
            assert(col[p[j] as int] == j);
        }
        assert forall|i: int| 1 <= i <= n implies 1 <= #[trigger] f(i) <= k by {
            assert(p[i] != 0 && p[i] <= k);
        }
        lemma_pigeonhole(f, n, k);
        assert(false);
    }
    choose|j: int| 1 <= j <= n && #[trigger] p[j] == 0
}

/// With every row matched, every column is taken.
proof fn lemma_all_columns_taken(
    cost: Seq<Vec<i64>>,
    u: Seq<i64>,
    v: Seq<i64>,
    p: Seq<usize>,
    col: Seq<int>,
    j0: int,
)
    requires
        matched(cost, cost.len() as int, u, v, p, col),
        1 <= j0 <= cost.len(),
    ensures
        p[j0] != 0,
{
    let n = cost.len() as int;
    if p[j0] == 0 {
        let f = |i: int| if col[i] < j0 {
            col[i]
        } else {
            col[i] - 1
        };
        assert forall|i: int| 1 <= i <= n implies 1 <= #[trigger] f(i) <= n - 1 by {
            assert(1 <= col[i] <= n && p[col[i]] == i);
        }
        assert forall|i: int, j: int| 1 <= i < j <= n implies #[trigger] f(i) != #[trigger] f(j) by {
            assert(p[col[i]] == i);
            assert(p[col[j]] == j);
        }
        lemma_pigeonhole(f, n, n - 1);
    }
}

/// The columns reached so far while one more row is being added, with the
/// slack of every column not yet reached. `rank` orders the reached columns by
/// when they were reached.
spec fn growing(
    cost: Seq<Vec<i64>>,
    row: int,
    u: Seq<i64>,
    v: Seq<i64>,
    p: Seq<usize>,
    col: Seq<int>,
    visited: Seq<bool>,
    slack: Seq<i64>,
    way: Seq<usize>,
    rank: Seq<int>,
    clock: int,
) -> bool {
    let n = cost.len() as int;
    &&& matched(cost, row - 1, u, v, p, col)
    &&& 1 <= row <= n
    &&& p[0] == row
    &&& visited.len() == n + 1
    &&& slack.len() == n + 1
    &&& way.len() == n + 1
    &&& rank.len() == n + 1
    &&& forall|w: int| 0 <= w <= n && #[trigger] visited[w] ==> p[w] != 0 && rank[w] < clock
    // Before anything is reached.
    &&& !visited[0] ==> {
        &&& u[row] == 0
        &&& forall|j: int| 0 <= j <= n ==> !#[trigger] visited[j]
        &&& forall|j: int| 1 <= j <= n ==> #[trigger] slack[j] == INFINITY
    }
    // Once the new row is in.
    &&& visited[0] ==> {
        &&& -COST_LIMIT <= u[row]
        &&& forall|j: int| 1 <= j <= n ==> #[trigger] reduced(cost, u, v, row, j) >= 0
        &&& forall|j: int|
            1 <= j <= n ==> {
                &&& #[trigger] way[j] <= n
                &&& visited[way[j] as int]
            }
        &&& forall|j: int|
            1 <= j <= n && !#[trigger] visited[j] ==> slack[j] == reduced(
                cost,
                u,
                v,
                p[way[j] as int] as int,
                j,
            )
        &&& forall|w: int, j: int|
            0 <= w <= n && 1 <= j <= n && #[trigger] visited[w] && !#[trigger] visited[j]
                ==> slack[j] <= reduced(cost, u, v, p[w] as int, j)
        &&& forall|w: int|
            1 <= w <= n && #[trigger] visited[w] ==> {
                &&& rank[way[w] as int] < rank[w]
                &&& reduced(cost, u, v, p[way[w] as int] as int, w) == 0
            }
    }
}

/// Bounds on every quantity the search computes with.
proof fn lemma_bounds(
    cost: Seq<Vec<i64>>,
    row: int,
    u: Seq<i64>,
    v: Seq<i64>,
    p: Seq<usize>,
    col: Seq<int>,
    visited: Seq<bool>,
    slack: Seq<i64>,
    way: Seq<usize>,
    rank: Seq<int>,
    clock: int,
)
    requires
        square(cost),
        growing(cost, row, u, v, p, col, visited, slack, way, rank, clock),
    ensures
        forall|i: int| 1 <= i <= row ==> -COST_LIMIT <= #[trigger] u[i] <= COST_LIMIT,
        forall|j: int| 1 <= j <= cost.len() ==> -2 * COST_LIMIT <= #[trigger] v[j] <= 0,
{
    let n = cost.len() as int;
    let free = lemma_free_column(cost, row - 1, u, v, p, col);
    assert forall|i: int| 1 <= i <= row implies -COST_LIMIT <= #[trigger] u[i] <= COST_LIMIT by {
        assert(-COST_LIMIT <= cost[i - 1]@[free - 1] <= COST_LIMIT);
        if i < row {
            assert(reduced(cost, u, v, i, free) >= 0);
            let j = col[i];
            assert(p[j] == i);
            assert(reduced(cost, u, v, p[j] as int, j) == 0);
            assert(v[j] <= 0);
            assert(-COST_LIMIT <= cost[i - 1]@[j - 1] <= COST_LIMIT);
        } else if visited[0] {
            assert(reduced(cost, u, v, row, free) >= 0);
        }
    }
    assert forall|j: int| 1 <= j <= n implies -2 * COST_LIMIT <= #[trigger] v[j] <= 0 by {
        if p[j] != 0 {
            let i = p[j] as int;
            assert(i <= row - 1);
            assert(reduced(cost, u, v, i, j) == 0);
            assert(-COST_LIMIT <= cost[i - 1]@[j - 1] <= COST_LIMIT);
            assert(u[i] <= COST_LIMIT);
        }
    }
}

/// Offer the row at `column` to every column not yet reached, and find the one
/// now cheapest to reach.
fn relax(
    cost: &[Vec<i64>],
    column: usize,
    u: &Vec<i64>,
    v: &Vec<i64>,
    p: &Vec<usize>,
    visited: &Vec<bool>,
    slack: &mut Vec<i64>,
    way: &mut Vec<usize>,
) -> (found: (i64, usize))
    requires
        square(cost@),
        sized(cost@.len() as int, u@, v@, p@),
        cost@.len() < usize::MAX,
        visited@.len() == cost@.len() + 1,
        old(slack)@.len() == cost@.len() + 1,
        old(way)@.len() == cost@.len() + 1,
        column <= cost@.len(),
        1 <= p@[column as int] <= cost@.len(),
        -COST_LIMIT <= u@[p@[column as int] as int] <= COST_LIMIT,
        forall|j: int| 1 <= j <= cost@.len() ==> -2 * COST_LIMIT <= #[trigger] v@[j] <= 0,
        forall|j: int|
            1 <= j <= cost@.len() && !#[trigger] visited@[j] ==> old(slack)@[j] <= INFINITY,
        exists|j: int| 1 <= j <= cost@.len() && !#[trigger] visited@[j],
    ensures
        final(slack)@.len() == cost@.len() + 1,
        final(way)@.len() == cost@.len() + 1,
        forall|j: int|
            0 <= j <= cost@.len() && (j == 0 || visited@[j]) ==> #[trigger] final(slack)@[j] == old(
                slack,
            )@[j],
        forall|j: int|
            0 <= j <= cost@.len() && (j == 0 || visited@[j]) ==> #[trigger] final(way)@[j] == old(
                way,
            )@[j],
        forall|j: int|
            1 <= j <= cost@.len() && !#[trigger] visited@[j] ==> {
                let r = reduced(cost@, u@, v@, p@[column as int] as int, j);
                if r < old(slack)@[j] {
                    final(slack)@[j] == r && final(way)@[j] == column
                } else {
                    final(slack)@[j] == old(slack)@[j] && final(way)@[j] == old(way)@[j]
                }
            },
        1 <= found.1 <= cost@.len(),
        !visited@[found.1 as int],
        final(slack)@[found.1 as int] == found.0,
        forall|j: int|
            1 <= j <= cost@.len() && !#[trigger] visited@[j] ==> found.0 <= final(slack)@[j],
{
    let n: usize = cost.len();
    let current_row: usize = p[column];
    let mut delta: i64 = INFINITY;
    let mut next_column: usize = 0;
    let mut candidate: usize = 1;
    while candidate <= n
        invariant
            n == cost@.len(),
            n < usize::MAX,
            square(cost@),
            sized(n as int, u@, v@, p@),
            visited@.len() == n + 1,
            slack@.len() == n + 1,
            way@.len() == n + 1,
            column <= n,
            current_row == p@[column as int],
            1 <= current_row <= n,
            -COST_LIMIT <= u@[current_row as int] <= COST_LIMIT,
            forall|j: int| 1 <= j <= n ==> -2 * COST_LIMIT <= #[trigger] v@[j] <= 0,
            forall|j: int| 1 <= j <= n && !#[trigger] visited@[j] ==> old(slack)@[j] <= INFINITY,
            old(slack)@.len() == n + 1,
            old(way)@.len() == n + 1,
            1 <= candidate <= n + 1,
            forall|j: int|
                0 <= j <= n && (j == 0 || j >= candidate || visited@[j]) ==> #[trigger] slack@[j]
                    == old(slack)@[j],
            forall|j: int|
                0 <= j <= n && (j == 0 || j >= candidate || visited@[j]) ==> #[trigger] way@[j]
                    == old(way)@[j],
            forall|j: int|
                1 <= j < candidate && !#[trigger] visited@[j] ==> {
                    let r = reduced(cost@, u@, v@, current_row as int, j);
                    if r < old(slack)@[j] {
                        slack@[j] == r && way@[j] == column
                    } else {
                        slack@[j] == old(slack)@[j] && way@[j] == old(way)@[j]
                    }
                },
            forall|j: int|
                1 <= j < candidate && !#[trigger] visited@[j] ==> delta <= slack@[j] < INFINITY,
            next_column == 0 ==> delta == INFINITY,
            next_column != 0 ==> 1 <= next_column < candidate && !visited@[next_column as int]
                && slack@[next_column as int] == delta,
        decreases n + 1 - candidate,
    {
        if !visited[candidate] {
            proof {
                assert(-COST_LIMIT <= cost@[current_row - 1]@[candidate - 1] <= COST_LIMIT);
                assert(-2 * COST_LIMIT <= v@[candidate as int] <= 0);
                assert(old(slack)@[candidate as int] == slack@[candidate as int]);
            }
            let r: i64 = cost[current_row - 1][candidate - 1] - u[current_row] - v[candidate];
            if r < slack[candidate] {
                slack.set(candidate, r);
                way.set(candidate, column);
            }
            if slack[candidate] < delta {
                delta = slack[candidate];
                next_column = candidate;
            }
        }
        candidate = candidate + 1;
    }
    proof {
        let j = choose|j: int| 1 <= j <= cost@.len() && !#[trigger] visited@[j];
        assert(slack@[j] < INFINITY);
    }
    (delta, next_column)
}

/// Raise the potentials of everything reached by `delta`, so that the cheapest
/// edge out of it becomes tight.
fn shift(
    n: usize,
    delta: i64,
    p: &Vec<usize>,
    visited: &Vec<bool>,
    u: &mut Vec<i64>,
    v: &mut Vec<i64>,
    slack: &mut Vec<i64>,
)
    requires
        n < usize::MAX,
        sized(n as int, old(u)@, old(v)@, p@),
        visited@.len() == n + 1,
        old(slack)@.len() == n + 1,
        -4 * COST_LIMIT <= delta <= 4 * COST_LIMIT,
        forall|w: int| 0 <= w <= n && #[trigger] visited@[w] ==> 1 <= p@[w] <= n,
        forall|w: int, x: int|
            0 <= w < x <= n && #[trigger] visited@[w] && #[trigger] visited@[x] ==> p@[w] != p@[x],
        forall|w: int|
            0 <= w <= n && #[trigger] visited@[w] ==> -COST_LIMIT <= old(u)@[p@[w] as int]
                <= COST_LIMIT,
        forall|j: int| 1 <= j <= n ==> -2 * COST_LIMIT <= #[trigger] old(v)@[j] <= 0,
        forall|j: int|
            1 <= j <= n && !#[trigger] visited@[j] ==> -4 * COST_LIMIT <= old(slack)@[j] <= 4
                * COST_LIMIT,
        visited@[0],
    ensures
        sized(n as int, final(u)@, final(v)@, p@),
        final(slack)@.len() == n + 1,
        forall|w: int|
            0 <= w <= n && #[trigger] visited@[w] ==> final(u)@[p@[w] as int] == old(
                u,
            )@[p@[w] as int] + delta,
        forall|i: int|
            0 <= i <= n && (forall|w: int| 0 <= w <= n && #[trigger] visited@[w] ==> p@[w] != i)
                ==> #[trigger] final(u)@[i] == old(u)@[i],
        forall|w: int|
            1 <= w <= n ==> #[trigger] final(v)@[w] == (if visited@[w] {
                old(v)@[w] - delta
            } else {
                old(v)@[w] as int
            }),
        forall|j: int|
            1 <= j <= n && !#[trigger] visited@[j] ==> final(slack)@[j] == old(slack)@[j] - delta,
{
    let mut candidate: usize = 0;
    while candidate <= n
        invariant
            n < usize::MAX,
            candidate <= n + 1,
            sized(n as int, u@, v@, p@),
            sized(n as int, old(u)@, old(v)@, p@),
            visited@.len() == n + 1,
            slack@.len() == n + 1,
            old(slack)@.len() == n + 1,
            visited@[0],
            -4 * COST_LIMIT <= delta <= 4 * COST_LIMIT,
            forall|w: int| 0 <= w <= n && #[trigger] visited@[w] ==> 1 <= p@[w] <= n,
            forall|w: int, x: int|
                0 <= w < x <= n && #[trigger] visited@[w] && #[trigger] visited@[x] ==> p@[w]
                    != p@[x],
            forall|w: int|
                0 <= w <= n && #[trigger] visited@[w] ==> -COST_LIMIT <= old(u)@[p@[w] as int]
                    <= COST_LIMIT,
            forall|j: int| 1 <= j <= n ==> -2 * COST_LIMIT <= #[trigger] old(v)@[j] <= 0,
            forall|j: int|
                1 <= j <= n && !#[trigger] visited@[j] ==> -4 * COST_LIMIT <= old(slack)@[j] <= 4
                    * COST_LIMIT,
            forall|w: int|
                0 <= w < candidate && #[trigger] visited@[w] ==> u@[p@[w] as int] == old(
                    u,
                )@[p@[w] as int] + delta,
            forall|w: int|
                candidate <= w <= n && #[trigger] visited@[w] ==> u@[p@[w] as int] == old(
                    u,
                )@[p@[w] as int],
            forall|i: int|
                0 <= i <= n && (forall|w: int|
                    0 <= w <= n && #[trigger] visited@[w] ==> p@[w] != i) ==> #[trigger] u@[i]
                    == old(u)@[i],
            forall|w: int|
                1 <= w <= n ==> #[trigger] v@[w] == (if visited@[w] && w < candidate {
                    old(v)@[w] - delta
                } else {
                    old(v)@[w] as int
                }),
            forall|j: int|
                1 <= j <= n && !#[trigger] visited@[j] ==> slack@[j] == (if j < candidate {
                    old(slack)@[j] - delta
                } else {
                    old(slack)@[j] as int
                }),
        decreases n + 1 - candidate,
    {
        if visited[candidate] {
            let r: usize = p[candidate];
            proof {
                assert(visited@[candidate as int]);
            }
            let raised: i64 = u[r] + delta;
            u.set(r, raised);
            if candidate > 0 {
                let lowered: i64 = v[candidate] - delta;
                v.set(candidate, lowered);
            }
        } else {
            proof {
                assert(!visited@[candidate as int]);
            }
            let left: i64 = slack[candidate] - delta;
            slack.set(candidate, left);
        }
        candidate = candidate + 1;
    }
}

/// One more column reached: what held before it holds after the potentials
/// have been raised.
proof fn lemma_grown(
    cost: Seq<Vec<i64>>,
    row: int,
    column: int,
    u: Seq<i64>,
    v: Seq<i64>,
    p: Seq<usize>,
    col: Seq<int>,
    visited: Seq<bool>,
    slack: Seq<i64>,
    way: Seq<usize>,
    rank: Seq<int>,
    clock: int,
    reached: Seq<bool>,
    slack1: Seq<i64>,
    way1: Seq<usize>,
    delta: int,
    next: int,
    u1: Seq<i64>,
    v1: Seq<i64>,
    slack2: Seq<i64>,
    rank1: Seq<int>,
)
    requires
        square(cost),
        growing(cost, row, u, v, p, col, visited, slack, way, rank, clock),
        0 <= column <= cost.len(),
        !visited[column],
        column == 0 <==> !visited[0],
        p[column] != 0,
        column != 0 ==> slack[column] == 0,
        forall|w: int| 0 <= w <= cost.len() && #[trigger] visited[w] ==> 0 <= rank[w],
        reached == visited.update(column, true),
        rank1 == rank.update(column, clock),
        slack1.len() == cost.len() + 1,
        way1.len() == cost.len() + 1,
        forall|j: int|
            0 <= j <= cost.len() && (j == 0 || reached[j]) ==> #[trigger] slack1[j] == slack[j],
        forall|j: int|
            0 <= j <= cost.len() && (j == 0 || reached[j]) ==> #[trigger] way1[j] == way[j],
        forall|j: int|
            1 <= j <= cost.len() && !#[trigger] reached[j] ==> {
                let r = reduced(cost, u, v, p[column] as int, j);
                if r < slack[j] {
                    slack1[j] == r && way1[j] == column
                } else {
                    slack1[j] == slack[j] && way1[j] == way[j]
                }
            },
        1 <= next <= cost.len(),
        !reached[next],
        slack1[next] == delta,
        forall|j: int| 1 <= j <= cost.len() && !#[trigger] reached[j] ==> delta <= slack1[j],
        sized(cost.len() as int, u1, v1, p),
        slack2.len() == cost.len() + 1,
        forall|w: int|
            0 <= w <= cost.len() && #[trigger] reached[w] ==> u1[p[w] as int] == u[p[w] as int]
                + delta,
        forall|i: int|
            0 <= i <= cost.len() && (forall|w: int|
                0 <= w <= cost.len() && #[trigger] reached[w] ==> p[w] != i) ==> #[trigger] u1[i]
                == u[i],
        forall|w: int|
            1 <= w <= cost.len() ==> #[trigger] v1[w] == (if reached[w] {
                v[w] - delta
            } else {
                v[w] as int
            }),
        forall|j: int|
            1 <= j <= cost.len() && !#[trigger] reached[j] ==> slack2[j] == slack1[j] - delta,
    ensures
        growing(cost, row, u1, v1, p, col, reached, slack2, way1, rank1, clock + 1),
        slack2[next] == 0,
        delta >= 0 || column == 0,
{
    let n = cost.len() as int;
    lemma_bounds(cost, row, u, v, p, col, visited, slack, way, rank, clock);
    assert(reached[column]);
    assert(reached[0]);
    // Nothing reached yet means the new row's edges set every slack.
    assert forall|j: int| 1 <= j <= n && !#[trigger] reached[j] implies {
        &&& way1[j] <= n
        &&& reached[way1[j] as int]
        &&& slack1[j] == reduced(cost, u, v, p[way1[j] as int] as int, j)
    } by {
        assert(!visited[j]);
        if column == 0 {
            assert(slack[j] == INFINITY);
            assert(-COST_LIMIT <= cost[row - 1]@[j - 1] <= COST_LIMIT);
            assert(-2 * COST_LIMIT <= v[j] <= 0);
            assert(reduced(cost, u, v, row, j) < INFINITY);
        }
    }
    assert forall|w: int, j: int|
        0 <= w <= n && 1 <= j <= n && #[trigger] reached[w] && !#[trigger] reached[j] implies slack1[j]
        <= reduced(cost, u, v, p[w] as int, j) by {
        assert(!visited[j]);
        if w != column {
            assert(visited[w]);
            assert(visited[0]);
        }
    }
    assert forall|j: int| 1 <= j <= n && !#[trigger] reached[j] && column != 0 implies slack1[j]
        >= 0 by {
        let w = way1[j] as int;
        assert(reached[w]);
        assert(p[w] != 0);
        let i = p[w] as int;
        if w == 0 {
            assert(i == row);
            assert(reduced(cost, u, v, row, j) >= 0);
        } else {
            assert(i <= row - 1);
            assert(reduced(cost, u, v, i, j) >= 0);
        }
    }
    if column != 0 {
        assert(slack1[next] >= 0);
    }
    // Distinct reached columns hold distinct rows.
    assert forall|w: int, x: int|
        0 <= w <= n && 0 <= x <= n && #[trigger] reached[w] && #[trigger] reached[x] && p[w]
            == p[x] implies w == x by {
        if w != 0 && x != 0 {
            assert(col[p[w] as int] == w);
            assert(col[p[x] as int] == x);
        }
    }
    // How a reduced cost moves.
    assert forall|i: int, j: int|
        1 <= i <= row && 1 <= j <= n && (i < row || reached[0]) implies {
        let inside = exists|w: int| 0 <= w <= n && #[trigger] reached[w] && p[w] == i;
        #[trigger] reduced(cost, u1, v1, i, j) == reduced(cost, u, v, i, j) - (if inside {
            delta
        } else {
            0
        }) + (if reached[j] {
            delta
        } else {
            0
        })
    } by {
        if exists|w: int| 0 <= w <= n && #[trigger] reached[w] && p[w] == i {
            let w = choose|w: int| 0 <= w <= n && #[trigger] reached[w] && p[w] == i;
            assert(u1[p[w] as int] == u[p[w] as int] + delta);
        } else {
            assert(u1[i] == u[i]);
        }
        assert(v1[j] == (if reached[j] {
            v[j] - delta
        } else {
            v[j] as int
        }));
    }
    assert forall|i: int, j: int| 1 <= i <= row && 1 <= j <= n implies #[trigger] reduced(
        cost,
        u1,
        v1,
        i,
        j,
    ) >= 0 by {
        if exists|w: int| 0 <= w <= n && #[trigger] reached[w] && p[w] == i {
            let w = choose|w: int| 0 <= w <= n && #[trigger] reached[w] && p[w] == i;
            if reached[j] {
                assert(visited[0]);
                assert(reduced(cost, u, v, i, j) >= 0);
            } else {
                assert(slack1[j] <= reduced(cost, u, v, p[w] as int, j));
            }
        } else {
            if i == row {
                assert(reached[0] && p[0] == row);
            }
            assert(reduced(cost, u, v, i, j) >= 0);
            if reached[j] {
                assert(column != 0);
                assert(delta >= 0);
            }
        }
    }
    // Matched edges stay tight: both ends are reached or neither is.
    assert forall|j: int| 1 <= j <= n && #[trigger] p[j] != 0 implies reduced(
        cost,
        u1,
        v1,
        p[j] as int,
        j,
    ) == 0 by {
        let i = p[j] as int;
        assert(i <= row - 1);
        assert(reduced(cost, u, v, i, j) == 0);
        if reached[j] {
        } else {
            if exists|w: int| 0 <= w <= n && #[trigger] reached[w] && p[w] == i {
                let w = choose|w: int| 0 <= w <= n && #[trigger] reached[w] && p[w] == i;
                assert(w != 0);
                assert(col[p[w] as int] == w);
                assert(col[p[j] as int] == j);
            }
        }
    }
    assert forall|j: int| 1 <= j <= n implies #[trigger] v1[j] <= 0 by {
        assert(v[j] <= 0);
        if reached[j] {
            assert(column != 0);
        }
    }
    assert forall|j: int| 1 <= j <= n && #[trigger] p[j] == 0 implies v1[j] == 0 by {
        assert(!reached[j]);
        assert(v1[j] == v[j]);
    }
    assert(matched(cost, row - 1, u1, v1, p, col));
    assert(-COST_LIMIT <= u1[row]) by {
        assert(reached[0]);
        assert(u1[p[0] as int] == u[p[0] as int] + delta);
        if column == 0 {
            assert(u[row] == 0);
            let w = way1[next] as int;
            assert(reached[w]);
            assert(w == 0);
            assert(delta == reduced(cost, u, v, row, next));
            assert(-COST_LIMIT <= cost[row - 1]@[next - 1] <= COST_LIMIT);
            assert(v[next] <= 0);
        }
    }
    assert forall|j: int| 1 <= j <= n implies #[trigger] way1[j] <= n && reached[way1[j] as int] by {
        if reached[j] {
            assert(visited[0]);
            assert(way[j] <= n && visited[way[j] as int]);
        }
    }
    assert forall|j: int| 1 <= j <= n && !#[trigger] reached[j] implies slack2[j] == reduced(
        cost,
        u1,
        v1,
        p[way1[j] as int] as int,
        j,
    ) by {
        let w = way1[j] as int;
        assert(reached[w]);
        let i = p[w] as int;
        if w != 0 {
            assert(i <= row - 1);
        }
        assert(reduced(cost, u1, v1, i, j) == reduced(cost, u, v, i, j) - delta);
    }
    assert forall|w: int, j: int|
        0 <= w <= n && 1 <= j <= n && #[trigger] reached[w] && !#[trigger] reached[j] implies slack2[j]
        <= reduced(cost, u1, v1, p[w] as int, j) by {
        let i = p[w] as int;
        if w != 0 {
            assert(i <= row - 1);
        }
        assert(reduced(cost, u1, v1, i, j) == reduced(cost, u, v, i, j) - delta);
        assert(slack1[j] <= reduced(cost, u, v, p[w] as int, j));
    }
    assert forall|w: int| 1 <= w <= n && #[trigger] reached[w] implies {
        &&& rank1[way1[w] as int] < rank1[w]
        &&& reduced(cost, u1, v1, p[way1[w] as int] as int, w) == 0
    } by {
        assert(visited[0]);
        assert(way1[w] == way[w]);
        let x = way[w] as int;
        assert(visited[x]);
        assert(x != column);
        let i = p[x] as int;
        assert(reached[x]);
        if x != 0 {
            assert(i <= row - 1);
        }
        if w == column {
            assert(!visited[w]);
            assert(slack[w] == reduced(cost, u, v, i, w));
            assert(rank[x] < clock);
        } else {
            assert(visited[w]);
            assert(reduced(cost, u, v, i, w) == 0);
        }
        assert(reduced(cost, u1, v1, i, w) == reduced(cost, u, v, i, w));
    }
}

/// How many columns are not reached.
spec fn not_reached(visited: Seq<bool>) -> nat
    decreases visited.len(),
{
    if visited.len() == 0 {
        0
    } else {
        not_reached(visited.drop_last()) + if visited.last() {
            0nat
        } else {
            1nat
        }
    }
}

proof fn lemma_reach_one(visited: Seq<bool>, c: int)
    requires
        0 <= c < visited.len(),
        !visited[c],
    ensures
        not_reached(visited.update(c, true)) + 1 == not_reached(visited),
    decreases visited.len(),
{
    let after = visited.update(c, true);
    if c == visited.len() - 1 {
        assert(after.drop_last() == visited.drop_last());
    } else {
        lemma_reach_one(visited.drop_last(), c);
        assert(after.drop_last() == visited.drop_last().update(c, true));
    }
}

/// Shift each column on the path back from `end` to the row that reached it,
/// so that the new row and every row before it hold a column each.
fn augment(
    cost: &[Vec<i64>],
    row: usize,
    end: usize,
    u: &Vec<i64>,
    v: &Vec<i64>,
    p: &mut Vec<usize>,
    way: &Vec<usize>,
    Ghost(col): Ghost<Seq<int>>,
    Ghost(visited): Ghost<Seq<bool>>,
    Ghost(slack): Ghost<Seq<i64>>,
    Ghost(rank): Ghost<Seq<int>>,
    Ghost(clock): Ghost<int>,
) -> (r: Ghost<Seq<int>>)
    requires
        growing(
            cost@,
            row as int,
            u@,
            v@,
            old(p)@,
            col,
            visited,
            slack,
            way@,
            rank,
            clock,
        ),
        visited[0],
        1 <= end <= cost@.len(),
        !visited[end as int],
        old(p)@[end as int] == 0,
        slack[end as int] == 0,
        forall|w: int| 0 <= w <= cost@.len() && #[trigger] visited[w] ==> 0 <= rank[w],
        0 <= clock,
    ensures
        matched(cost@, row as int, u@, v@, final(p)@, r@),
{
    let ghost n = cost@.len() as int;
    let ghost p0 = p@;
    let ghost path = visited.update(end as int, true);
    let ghost ranks = rank.update(end as int, clock);
    let ghost mut at: Seq<int> = col.update(row as int, 0);
    let mut column: usize = end;
    proof {
        assert forall|w: int| 1 <= w <= n && #[trigger] path[w] implies {
            &&& way@[w] <= n
            &&& path[way@[w] as int]
            &&& ranks[way@[w] as int] < ranks[w]
            &&& reduced(cost@, u@, v@, p0[way@[w] as int] as int, w) == 0
        } by {
            assert(visited[way@[w] as int]);
            if w != end {
                assert(visited[w]);
            }
        }
        assert forall|j: int| 0 <= j <= n && j != end && #[trigger] p@[j] != 0 implies p@[j] <= row
            && at[p@[j] as int] == j by {
            if j > 0 {
                assert(p@[j] <= row - 1);
            }
        }
        assert forall|i: int| 1 <= i <= row implies 0 <= #[trigger] at[i] <= n && at[i] != end
            && p@[at[i]] == i by {
            if i < row {
                assert(1 <= col[i] <= n && p@[col[i]] == i);
            }
        }
    }
    while column != 0
        invariant
            n == cost@.len(),
            1 <= row <= n,
            sized(n, u@, v@, p0),
            p@.len() == n + 1,
            way@.len() == n + 1,
            at.len() == n + 1,
            path.len() == n + 1,
            ranks.len() == n + 1,
            0 <= column <= n,
            path[column as int],
            forall|w: int| 0 <= w <= n && #[trigger] path[w] ==> 0 <= ranks[w],
            forall|w: int|
                1 <= w <= n && #[trigger] path[w] ==> {
                    &&& way@[w] <= n
                    &&& path[way@[w] as int]
                    &&& p0[way@[w] as int] != 0
                    &&& ranks[way@[w] as int] < ranks[w]
                    &&& reduced(cost@, u@, v@, p0[way@[w] as int] as int, w) == 0
                },
            forall|i: int|
                1 <= i <= row ==> 0 <= #[trigger] at[i] <= n && at[i] != column && p@[at[i]] == i,
            forall|j: int|
                0 <= j <= n && j != column && #[trigger] p@[j] != 0 ==> p@[j] <= row
                    && at[p@[j] as int] == j,
            forall|j: int|
                1 <= j <= n && j != column && #[trigger] p@[j] != 0 ==> reduced(
                    cost@,
                    u@,
                    v@,
                    p@[j] as int,
                    j,
                ) == 0,
            forall|w: int|
                0 <= w <= n && #[trigger] path[w] && ranks[w] < ranks[column as int] ==> p@[w]
                    == p0[w],
            forall|j: int| 1 <= j <= n && j != column && #[trigger] p@[j] == 0 ==> p0[j] == 0,
        decreases ranks[column as int],
    {
        let source: usize = way[column];
        proof {
            assert(path[source as int]);
            assert(p@[source as int] == p0[source as int]);
        }
        let moved: usize = p[source];
        p.set(column, moved);
        proof {
            at = at.update(moved as int, column as int);
        }
        column = source;
    }
    proof {
        assert forall|i: int, j: int| 1 <= i <= row && 1 <= j <= n implies #[trigger] reduced(
            cost@,
            u@,
            v@,
            i,
            j,
        ) >= 0 by {
            if i == row {
                assert(reduced(cost@, u@, v@, row as int, j) >= 0);
            }
        }
        assert forall|i: int| 1 <= i <= row implies 1 <= #[trigger] at[i] <= n && p@[at[i]] == i by {
            assert(at[i] != 0);
        }
    }
    Ghost(at)
}

/// Add `row` to the rows already matched.
fn add_row(
    cost: &[Vec<i64>],
    row: usize,
    u: &mut Vec<i64>,
    v: &mut Vec<i64>,
    p: &mut Vec<usize>,
    Ghost(col): Ghost<Seq<int>>,
) -> (r: Ghost<Seq<int>>)
    requires
        square(cost@),
        cost@.len() < usize::MAX,
        1 <= row <= cost@.len(),
        matched(cost@, row - 1, old(u)@, old(v)@, old(p)@, col),
        forall|i: int| row <= i <= cost@.len() ==> #[trigger] old(u)@[i] == 0,
    ensures
        matched(cost@, row as int, final(u)@, final(v)@, final(p)@, r@),
        forall|i: int| row < i <= cost@.len() ==> #[trigger] final(u)@[i] == 0,
{
    let n: usize = cost.len();
    p.set(0, row);
    let mut column: usize = 0;
    let mut slack: Vec<i64> = vec![INFINITY; n + 1];
    let mut visited: Vec<bool> = vec![false; n + 1];
    let mut way: Vec<usize> = vec![0usize; n + 1];
    let ghost mut rank: Seq<int> = Seq::new((n + 1) as nat, |i: int| 0);
    let ghost mut clock: int = 0;
    loop
        invariant_except_break
            column == 0 <==> !visited@[0],
            p@[column as int] != 0,
        invariant
            square(cost@),
            n == cost@.len(),
            n < usize::MAX,
            growing(
                cost@,
                row as int,
                u@,
                v@,
                p@,
                col,
                visited@,
                slack@,
                way@,
                rank,
                clock,
            ),
            column <= n,
            !visited@[column as int],
            column != 0 ==> slack@[column as int] == 0,
            0 <= clock,
            forall|w: int| 0 <= w <= n && #[trigger] visited@[w] ==> 0 <= rank[w],
            forall|i: int| row < i <= n ==> #[trigger] u@[i] == 0,
        ensures
            column != 0,
            visited@[0],
            p@[column as int] == 0,
        decreases not_reached(visited@),
    {
        let ghost u0 = u@;
        let ghost v0 = v@;
        let ghost visited0 = visited@;
        let ghost slack0 = slack@;
        let ghost way0 = way@;
        proof {
            lemma_bounds(
                cost@,
                row as int,
                u@,
                v@,
                p@,
                col,
                visited@,
                slack@,
                way@,
                rank,
                clock,
            );
            lemma_reach_one(visited@, column as int);
            let free = lemma_free_column(cost@, row - 1, u@, v@, p@, col);
            assert(!visited@.update(column as int, true)[free]);
            assert(1 <= p@[column as int] <= row) by {
                if column > 0 {
                    assert(p@[column as int] <= row - 1);
                }
            }
            assert forall|w: int, j: int|
                1 <= w <= row && 1 <= j <= n implies -4 * COST_LIMIT <= #[trigger] reduced(
                cost@,
                u@,
                v@,
                w,
                j,
            ) <= 4 * COST_LIMIT by {
                assert(-COST_LIMIT <= cost@[w - 1]@[j - 1] <= COST_LIMIT);
                assert(-COST_LIMIT <= u@[w] <= COST_LIMIT);
                assert(-2 * COST_LIMIT <= v@[j] <= 0);
            }
            assert forall|j: int| 1 <= j <= n && !#[trigger] visited@[j] implies slack@[j]
                <= INFINITY && (visited@[0] ==> -4 * COST_LIMIT <= slack@[j] <= 4 * COST_LIMIT) by {
                if visited@[0] {
                    let w = way@[j] as int;
                    assert(visited@[w]);
                    if w > 0 {
                        assert(p@[w] <= row - 1);
                    }
                }
            }
        }
        visited.set(column, true);
        let (delta, next_column): (i64, usize) = relax(
            cost,
            column,
            u,
            v,
            p,
            &visited,
            &mut slack,
            &mut way,
        );
        let ghost slack1 = slack@;
        shift(n, delta, p, &visited, u, v, &mut slack);
        proof {
            lemma_grown(
                cost@,
                row as int,
                column as int,
                u0,
                v0,
                p@,
                col,
                visited0,
                slack0,
                way0,
                rank,
                clock,
                visited@,
                slack1,
                way@,
                delta as int,
                next_column as int,
                u@,
                v@,
                slack@,
                rank.update(column as int, clock),
            );
            rank = rank.update(column as int, clock);
            clock = clock + 1;
        }
        column = next_column;
        if p[column] == 0 {
            break ;
        }
    }
    augment(
        cost,
        row,
        column,
        u,
        v,
        p,
        &way,
        Ghost(col),
        Ghost(visited@),
        Ghost(slack@),
        Ghost(rank),
        Ghost(clock),
    )
}

spec fn sum_all(w: Seq<int>) -> int
    decreases w.len(),
{
    if w.len() == 0 {
        0
    } else {
        sum_all(w.drop_last()) + w.last()
    }
}

spec fn sum_at(w: Seq<int>, columns: Seq<int>) -> int
    decreases columns.len(),
{
    if columns.len() == 0 {
        0
    } else {
        sum_at(w, columns.drop_last()) + w[columns.last()]
    }
}

proof fn lemma_sum_update(w: Seq<int>, x: int)
    requires
        0 <= x < w.len(),
    ensures
        sum_all(w.update(x, 0)) == sum_all(w) - w[x],
    decreases w.len(),
{
    let z = w.update(x, 0);
    if x == w.len() - 1 {
        assert(z.drop_last() == w.drop_last());
    } else {
        lemma_sum_update(w.drop_last(), x);
        assert(z.drop_last() == w.drop_last().update(x, 0));
    }
}

proof fn lemma_sum_at_same(w: Seq<int>, z: Seq<int>, columns: Seq<int>)
    requires
        forall|r: int| 0 <= r < columns.len() ==> w[#[trigger] columns[r]] == z[columns[r]],
    ensures
        sum_at(w, columns) == sum_at(z, columns),
    decreases columns.len(),
{
    if columns.len() > 0 {
        assert forall|r: int| 0 <= r < columns.drop_last().len() implies w[#[trigger] columns.drop_last()[r]]
            == z[columns.drop_last()[r]] by {
            assert(columns.drop_last()[r] == columns[r]);
        }
        lemma_sum_at_same(w, z, columns.drop_last());
        assert(columns.last() == columns[columns.len() - 1]);
    }
}

proof fn lemma_sum_zero(w: Seq<int>)
    requires
        forall|j: int| 0 <= j < w.len() ==> #[trigger] w[j] <= 0,
    ensures
        sum_all(w) <= 0,
        (forall|j: int| 0 <= j < w.len() ==> #[trigger] w[j] == 0) ==> sum_all(w) == 0,
    decreases w.len(),
{
    if w.len() > 0 {
        let front = w.drop_last();
        assert forall|j: int| 0 <= j < front.len() implies #[trigger] front[j] <= 0 by {
            assert(front[j] == w[j]);
        }
        lemma_sum_zero(front);
        if forall|j: int| 0 <= j < w.len() ==> #[trigger] w[j] == 0 {
            assert forall|j: int| 0 <= j < front.len() implies #[trigger] front[j] == 0 by {
                assert(front[j] == w[j]);
            }
        }
        assert(w.last() == w[w.len() - 1]);
    }
}

/// Distinct columns gather at least the sum of all, when nothing is positive;
/// exactly that sum, when what they leave out is zero.
proof fn lemma_sum_distinct(w: Seq<int>, columns: Seq<int>)
    requires
        distinct_columns(columns, w.len() as int),
        forall|j: int| 0 <= j < w.len() ==> #[trigger] w[j] <= 0,
    ensures
        sum_at(w, columns) >= sum_all(w),
        (forall|j: int| 0 <= j < w.len() && !columns.contains(j) ==> #[trigger] w[j] == 0)
            ==> sum_at(w, columns) == sum_all(w),
    decreases columns.len(),
{
    if columns.len() == 0 {
        lemma_sum_zero(w);
        if forall|j: int| 0 <= j < w.len() && !columns.contains(j) ==> #[trigger] w[j] == 0 {
            assert forall|j: int| 0 <= j < w.len() implies #[trigger] w[j] == 0 by {
                assert(!columns.contains(j));
            }
        }
    } else {
        let x = columns.last();
        let front = columns.drop_last();
        assert(x == columns[columns.len() - 1]);
        let z = w.update(x, 0);
        assert forall|r: int| 0 <= r < front.len() implies 0 <= #[trigger] front[r] < w.len()
            && front[r] != x by {
            assert(front[r] == columns[r]);
        }
        assert(distinct_columns(front, z.len() as int)) by {
            assert forall|r: int, t: int| 0 <= r < t < front.len() implies #[trigger] front[r]
                != #[trigger] front[t] by {
                assert(front[r] == columns[r] && front[t] == columns[t]);
            }
        }
        lemma_sum_distinct(z, front);
        lemma_sum_update(w, x);
        lemma_sum_at_same(w, z, front);
        if forall|j: int| 0 <= j < w.len() && !columns.contains(j) ==> #[trigger] w[j] == 0 {
            assert forall|j: int| 0 <= j < z.len() && !front.contains(j) implies #[trigger] z[j]
                == 0 by {
                if j != x {
                    if columns.contains(j) {
                        let r = choose|r: int| 0 <= r < columns.len() && columns[r] == j;
                        assert(r != columns.len() - 1);
                        assert(front[r] == j);
                    }
                    assert(w[j] == 0);
                }
            }
        }
    }
}

spec fn row_sum(u: Seq<i64>, m: nat) -> int
    decreases m,
{
    if m == 0 {
        0
    } else {
        row_sum(u, (m - 1) as nat) + u[m as int]
    }
}

/// A feasible dual bounds every assignment's cost from below, and meets it
/// where every edge is tight.
proof fn lemma_dual(
    cost: Seq<Vec<i64>>,
    u: Seq<i64>,
    v: Seq<i64>,
    w: Seq<int>,
    columns: Seq<int>,
)
    requires
        columns.len() <= cost.len(),
        w.len() == cost.len(),
        forall|j: int| 0 <= j < w.len() ==> #[trigger] w[j] == v[j + 1],
        forall|r: int| 0 <= r < columns.len() ==> 0 <= #[trigger] columns[r] < cost.len(),
        forall|i: int, j: int|
            1 <= i <= cost.len() && 1 <= j <= cost.len() ==> #[trigger] reduced(cost, u, v, i, j)
                >= 0,
    ensures
        total(cost, columns) >= row_sum(u, columns.len()) + sum_at(w, columns),
        (forall|r: int|
            0 <= r < columns.len() ==> reduced(cost, u, v, r + 1, #[trigger] columns[r] + 1) == 0)
            ==> total(cost, columns) == row_sum(u, columns.len()) + sum_at(w, columns),
    decreases columns.len(),
{
    if columns.len() > 0 {
        let front = columns.drop_last();
        assert forall|r: int| 0 <= r < front.len() implies 0 <= #[trigger] front[r] < cost.len() by {
            assert(front[r] == columns[r]);
        }
        lemma_dual(cost, u, v, w, front);
        let c = columns.last();
        assert(c == columns[columns.len() - 1]);
        assert(w[c] == v[c + 1]);
        assert(reduced(cost, u, v, columns.len() as int, c + 1) >= 0);
        if forall|r: int|
            0 <= r < columns.len() ==> reduced(cost, u, v, r + 1, #[trigger] columns[r] + 1) == 0 {
            assert forall|r: int| 0 <= r < front.len() implies reduced(
                cost,
                u,
                v,
                r + 1,
                #[trigger] front[r] + 1,
            ) == 0 by {
                assert(front[r] == columns[r]);
                assert(reduced(cost, u, v, r + 1, columns[r] + 1) == 0);
            }
            assert(reduced(cost, u, v, columns.len() - 1 + 1, columns[columns.len() - 1] + 1) == 0);
        }
    }
}

/// The Hungarian algorithm (Kuhn–Munkres), in the shortest-augmenting-path form
/// with dual potentials: for each row in turn, grow a tree over unvisited
/// columns, raising the potentials by the slack of the cheapest edge until it
/// reaches an unassigned column, then flip the alternating path. The return is
/// the column chosen for each row, minimising the total.
pub fn hungarian(cost: &[Vec<i64>]) -> (columns: Vec<usize>)
    requires
        square(cost@),
        cost@.len() < usize::MAX,
    ensures
        assigns(ints(columns@), cost@.len() as int),
        forall|other: Seq<int>|
            assigns(other, cost@.len() as int) ==> total(cost@, ints(columns@)) <= #[trigger] total(
                cost@,
                other,
            ),
{
    let n: usize = cost.len();
    let mut row_potential: Vec<i64> = vec![0i64; n + 1];
    let mut column_potential: Vec<i64> = vec![0i64; n + 1];
    let mut row_of_column: Vec<usize> = vec![0usize; n + 1];
    let mut col: Ghost<Seq<int>> = Ghost(Seq::new((n + 1) as nat, |i: int| 0));
    let mut row: usize = 1;
    while row <= n
        invariant
            square(cost@),
            n == cost@.len(),
            n < usize::MAX,
            1 <= row <= n + 1,
            matched(
                cost@,
                row - 1,
                row_potential@,
                column_potential@,
                row_of_column@,
                col@,
            ),
            forall|i: int| row <= i <= n ==> #[trigger] row_potential@[i] == 0,
        decreases n + 1 - row,
    {
        col = add_row(
            cost,
            row,
            &mut row_potential,
            &mut column_potential,
            &mut row_of_column,
            col,
        );
        row = row + 1;
    }
    let ghost u = row_potential@;
    let ghost v = column_potential@;
    let ghost p = row_of_column@;
    let mut columns: Vec<usize> = vec![0usize; n];
    let mut column: usize = 1;
    while column <= n
        invariant
            n == cost@.len(),
            n < usize::MAX,
            1 <= column <= n + 1,
            columns@.len() == n,
            p == row_of_column@,
            matched(cost@, n as int, u, v, p, col@),
            forall|i: int| 1 <= i <= n && col@[i] < column ==> columns@[i - 1] + 1 == #[trigger] col@[i],
        decreases n + 1 - column,
    {
        proof {
            lemma_all_columns_taken(cost@, u, v, p, col@, column as int);
            assert(p[column as int] <= n);
        }
        columns.set(row_of_column[column] - 1, column - 1);
        proof {
            assert forall|i: int| 1 <= i <= n && col@[i] < column + 1 implies columns@[i - 1] + 1
                == #[trigger] col@[i] by {
                assert(p[col@[i]] == i);
                assert(col@[p[column as int] as int] == column);
            }
        }
        column = column + 1;
    }
    proof {
        let cs = ints(columns@);
        let w = Seq::new(n as nat, |j: int| v[j + 1] as int);
        assert forall|r: int| 0 <= r < n implies 0 <= #[trigger] cs[r] < n && cs[r] + 1 == col@[r
            + 1] && p[cs[r] + 1] == r + 1 by {
            assert(columns@[r + 1 - 1] + 1 == col@[r + 1]);
            assert(p[col@[r + 1]] == r + 1);
        }
        assert(distinct_columns(cs, n as int)) by {
            assert forall|r: int, t: int| 0 <= r < t < cs.len() implies #[trigger] cs[r]
                != #[trigger] cs[t] by {
                assert(p[cs[r] + 1] == r + 1);
                assert(p[cs[t] + 1] == t + 1);
            }
        }
        assert forall|j: int| 0 <= j < w.len() implies #[trigger] w[j] <= 0 by {
            assert(v[j + 1] <= 0);
        }
        assert forall|j: int| 0 <= j < w.len() && !cs.contains(j) implies #[trigger] w[j] == 0 by {
            lemma_all_columns_taken(cost@, u, v, p, col@, j + 1);
            let i = p[j + 1] as int;
            assert(col@[i] == j + 1);
            assert(cs[i - 1] + 1 == col@[i - 1 + 1]);
            assert(cs[i - 1] == j);
        }
        lemma_sum_distinct(w, cs);
        assert forall|r: int| 0 <= r < cs.len() implies reduced(
            cost@,
            u,
            v,
            r + 1,
            #[trigger] cs[r] + 1,
        ) == 0 by {
            assert(p[cs[r] + 1] == r + 1);
        }
        lemma_dual(cost@, u, v, w, cs);
        assert forall|other: Seq<int>| assigns(other, n as int) implies total(cost@, cs)
            <= #[trigger] total(cost@, other) by {
            lemma_dual(cost@, u, v, w, other);
            lemma_sum_distinct(w, other);
        }
    }
    columns
}

/// A table of overlaps: one row per reference label, one column per hypothesis
/// label, each count within [`COST_LIMIT`].
pub open spec fn overlap_table(overlap: Seq<Vec<i64>>, n_ref: int, n_hyp: int) -> bool {
    &&& overlap.len() == n_ref
    &&& forall|r: int| 0 <= r < n_ref ==> (#[trigger] overlap[r])@.len() == n_hyp
    &&& forall|r: int, h: int|
        0 <= r < n_ref && 0 <= h < n_hyp ==> 0 <= #[trigger] overlap[r]@[h] <= COST_LIMIT
}

/// Each reference label has a hypothesis label or none, and no two share one.
pub open spec fn maps(m: Seq<Option<usize>>, n_ref: int, n_hyp: int) -> bool {
    &&& m.len() == n_ref
    &&& forall|r: int| 0 <= r < n_ref && (#[trigger] m[r]) is Some ==> m[r]->0 < n_hyp
    &&& forall|r: int, s: int|
        0 <= r < s < n_ref && (#[trigger] m[r]) is Some && (#[trigger] m[s]) is Some ==> m[r]->0
            != m[s]->0
}

/// The overlap a mapping puts on the right speaker.
pub open spec fn weight(overlap: Seq<Vec<i64>>, m: Seq<Option<usize>>) -> int
    decreases m.len(),
{
    if m.len() == 0 {
        0
    } else {
        weight(overlap, m.drop_last()) + match m.last() {
            Some(h) => overlap[m.len() - 1]@[h as int] as int,
            None => 0,
        }
    }
}

/// Some row holds column `c`.
spec fn held(full: Seq<Option<int>>, c: int) -> bool {
    exists|r: int| 0 <= r < full.len() && (#[trigger] full[r]) is Some && full[r]->0 == c
}

spec fn half_assigned(full: Seq<Option<int>>, n: int, done: int) -> bool {
    &&& full.len() == n
    &&& 0 <= done <= n
    &&& forall|r: int| 0 <= r < n && (#[trigger] full[r]) is Some ==> 0 <= full[r]->0 < n
    &&& forall|r: int, s: int|
        0 <= r < s < n && (#[trigger] full[r]) is Some && (#[trigger] full[s]) is Some
            ==> full[r]->0 != full[s]->0
    &&& forall|r: int| 0 <= r < done ==> (#[trigger] full[r]) is Some
}

/// A partial assignment with a row left over leaves a column over too.
proof fn lemma_spare_column(full: Seq<Option<int>>, n: int, done: int) -> (c: int)
    requires
        half_assigned(full, n, done),
        done < n,
        full[done] is None,
    ensures
        0 <= c < n,
        forall|r: int| 0 <= r < n && (#[trigger] full[r]) is Some ==> full[r]->0 != c,
{
    if forall|c: int| 0 <= c < n ==> #[trigger] held(full, c) {
        let row_of = |c: int| choose|r: int|
            0 <= r < full.len() && (#[trigger] full[r]) is Some && full[r]->0 == c;
        let f = |j: int| {
            let r = row_of(j - 1);
            if r < done {
                r + 1
            } else {
                r
            }
        };
        assert forall|c: int| 0 <= c < n implies {
            let r = #[trigger] row_of(c);
            0 <= r < n && full[r] is Some && full[r]->0 == c
        } by {
            assert(held(full, c));
        }
        assert forall|i: int| 1 <= i <= n implies 1 <= #[trigger] f(i) <= n - 1 by {
            let r = row_of(i - 1);
            assert(full[r] is Some);
            assert(r != done);
        }
        assert forall|i: int, j: int| 1 <= i < j <= n implies #[trigger] f(i) != #[trigger] f(j) by {
            let r = row_of(i - 1);
            let s = row_of(j - 1);
            assert(full[r]->0 == i - 1);
            assert(full[s]->0 == j - 1);
            assert(r != done && s != done);
        }
        lemma_pigeonhole(f, n, n - 1);
        assert(false);
    }
    choose|c: int| 0 <= c < n && !#[trigger] held(full, c)
}

/// A partial assignment can be completed.
proof fn lemma_complete(full: Seq<Option<int>>, n: int, done: int) -> (columns: Seq<int>)
    requires
        half_assigned(full, n, done),
    ensures
        assigns(columns, n),
        forall|r: int| 0 <= r < n && (#[trigger] full[r]) is Some ==> columns[r] == full[r]->0,
    decreases n - done,
{
    if done == n {
        let columns = full.map_values(|c: Option<int>| c->0);
        assert forall|r: int, s: int| 0 <= r < s < columns.len() implies #[trigger] columns[r]
            != #[trigger] columns[s] by {
            assert(full[r] is Some && full[s] is Some);
        }
        assert forall|r: int| 0 <= r < columns.len() implies 0 <= #[trigger] columns[r] < n by {
            assert(full[r] is Some);
        }
        columns
    } else if full[done] is Some {
        lemma_complete(full, n, done + 1)
    } else {
        let c = lemma_spare_column(full, n, done);
        let next = full.update(done, Some(c));
        let columns = lemma_complete(next, n, done + 1);
        assert forall|r: int| 0 <= r < n && (#[trigger] full[r]) is Some implies columns[r]
            == full[r]->0 by {
            assert(next[r] == full[r]);
        }
        columns
    }
}

spec fn padded(cost: Seq<Vec<i64>>, overlap: Seq<Vec<i64>>, n_ref: int, n_hyp: int) -> bool {
    forall|r: int, c: int|
        0 <= r < cost.len() && 0 <= c < cost.len() ==> #[trigger] cost[r]@[c] == (if r < n_ref && c
            < n_hyp {
            -overlap[r]@[c]
        } else {
            0int
        })
}

proof fn lemma_weight_below(
    cost: Seq<Vec<i64>>,
    overlap: Seq<Vec<i64>>,
    n_ref: int,
    n_hyp: int,
    m: Seq<Option<usize>>,
    columns: Seq<int>,
)
    requires
        overlap_table(overlap, n_ref, n_hyp),
        padded(cost, overlap, n_ref, n_hyp),
        n_ref <= cost.len(),
        n_hyp <= cost.len(),
        m.len() <= columns.len() <= cost.len(),
        m.len() <= n_ref,
        columns.len() > m.len() ==> m.len() == n_ref,
        forall|r: int| 0 <= r < columns.len() ==> 0 <= #[trigger] columns[r] < cost.len(),
        forall|r: int|
            0 <= r < m.len() && (#[trigger] m[r]) is Some ==> m[r]->0 < n_hyp && columns[r]
                == m[r]->0,
    ensures
        weight(overlap, m) <= -total(cost, columns),
        (forall|r: int|
            0 <= r < m.len() && (#[trigger] m[r]) is None ==> columns[r] >= n_hyp
                || overlap[r]@[columns[r]] == 0) ==> weight(overlap, m) == -total(cost, columns),
    decreases columns.len(),
{
    if columns.len() > 0 {
        let front = columns.drop_last();
        let k = columns.len() - 1;
        assert forall|r: int| 0 <= r < front.len() implies 0 <= #[trigger] front[r] < cost.len() by {
            assert(front[r] == columns[r]);
        }
        assert(columns[k] == columns.last());
        assert(0 <= columns[k] < cost.len());
        if columns.len() > m.len() {
            lemma_weight_below(cost, overlap, n_ref, n_hyp, m, front);
            assert(cost[k]@[columns[k]] == 0);
            if forall|r: int|
                0 <= r < m.len() && (#[trigger] m[r]) is None ==> columns[r] >= n_hyp
                    || overlap[r]@[columns[r]] == 0 {
                assert forall|r: int| 0 <= r < m.len() && (#[trigger] m[r]) is None implies front[r]
                    >= n_hyp || overlap[r]@[front[r]] == 0 by {
                    assert(front[r] == columns[r]);
                }
            }
        } else {
            let mf = m.drop_last();
            assert forall|r: int| 0 <= r < mf.len() && (#[trigger] mf[r]) is Some implies mf[r]->0
                < n_hyp && front[r] == mf[r]->0 by {
                assert(mf[r] == m[r]);
            }
            lemma_weight_below(cost, overlap, n_ref, n_hyp, mf, front);
            assert(m.last() == m[k]);
            if columns[k] < n_hyp {
                assert(0 <= overlap[k]@[columns[k]] <= COST_LIMIT);
            }
            assert(cost[k]@[columns[k]] == (if k < n_ref && columns[k] < n_hyp {
                -overlap[k]@[columns[k]]
            } else {
                0int
            }));
            if forall|r: int|
                0 <= r < m.len() && (#[trigger] m[r]) is None ==> columns[r] >= n_hyp
                    || overlap[r]@[columns[r]] == 0 {
                assert forall|r: int| 0 <= r < mf.len() && (#[trigger] mf[r]) is None implies front[r]
                    >= n_hyp || overlap[r]@[front[r]] == 0 by {
                    assert(mf[r] == m[r]);
                }
                assert(m[k] is None ==> columns[k] >= n_hyp || overlap[k]@[columns[k]] == 0);
            }
        }
    }
}

/// The reference label to hypothesis label map that puts the most speech on the
/// right speaker, `None` for a reference label left unmatched. A label is never
/// matched to one it shares nothing with.
///
/// Greedy matching is wrong here: given a reference speaker split across two
/// clusters, greedy takes the larger piece first and can strand a second
/// reference speaker with nothing. So the overlap matrix is padded to square
/// with zeros and solved exactly.
pub fn best_mapping(overlap: &[Vec<i64>], n_ref: usize, n_hyp: usize) -> (mapping: Vec<
    Option<usize>,
>)
    requires
        overlap_table(overlap@, n_ref as int, n_hyp as int),
        n_ref < usize::MAX,
        n_hyp < usize::MAX,
    ensures
        maps(mapping@, n_ref as int, n_hyp as int),
        forall|r: int|
            0 <= r < n_ref && (#[trigger] mapping@[r]) is Some ==> overlap@[r]@[mapping@[r]->0 as int]
                > 0,
        forall|other: Seq<Option<usize>>|
            maps(other, n_ref as int, n_hyp as int) ==> #[trigger] weight(overlap@, other) <= weight(
                overlap@,
                mapping@,
            ),
{
    let n: usize = if n_ref > n_hyp {
        n_ref
    } else {
        n_hyp
    };
    // Padded to square, and negated because the solver minimises.
    let mut cost: Vec<Vec<i64>> = Vec::new();
    let mut r: usize = 0;
    while r < n
        invariant
            r <= n,
            n_ref <= n,
            n_hyp <= n,
            overlap_table(overlap@, n_ref as int, n_hyp as int),
            cost@.len() == r,
            forall|x: int| 0 <= x < r ==> (#[trigger] cost@[x])@.len() == n,
            forall|x: int, c: int|
                0 <= x < r && 0 <= c < n ==> #[trigger] cost@[x]@[c] == (if x < n_ref && c < n_hyp {
                    -overlap@[x]@[c]
                } else {
                    0int
                }),
        decreases n - r,
    {
        let mut line: Vec<i64> = Vec::new();
        let mut h: usize = 0;
        while h < n
            invariant
                r < n,
                h <= n,
                n_ref <= n,
                n_hyp <= n,
                overlap_table(overlap@, n_ref as int, n_hyp as int),
                line@.len() == h,
                forall|c: int|
                    0 <= c < h ==> #[trigger] line@[c] == (if r < n_ref && c < n_hyp {
                        -overlap@[r as int]@[c]
                    } else {
                        0int
                    }),
            decreases n - h,
        {
            if r < n_ref && h < n_hyp {
                proof {
                    assert(0 <= overlap@[r as int]@[h as int] <= COST_LIMIT);
                }
                line.push(-overlap[r][h]);
            } else {
                line.push(0);
            }
            h = h + 1;
        }
        cost.push(line);
        r = r + 1;
    }
    proof {
        assert(square(cost@)) by {
            assert forall|x: int, c: int| 0 <= x < n && 0 <= c < n implies -COST_LIMIT
                <= #[trigger] cost@[x]@[c] <= COST_LIMIT by {
                if x < n_ref && c < n_hyp {
                    assert(0 <= overlap@[x]@[c] <= COST_LIMIT);
                }
            }
        }
    }
    let assignment: Vec<usize> = hungarian(cost.as_slice());
    let ghost cs = ints(assignment@);
    let mut mapping: Vec<Option<usize>> = Vec::new();
    let mut x: usize = 0;
    while x < n_ref
        invariant
            x <= n_ref <= n,
            n_hyp <= n,
            overlap_table(overlap@, n_ref as int, n_hyp as int),
            assigns(cs, n as int),
            cs == ints(assignment@),
            mapping@.len() == x,
            forall|k: int|
                0 <= k < x ==> #[trigger] mapping@[k] == (if cs[k] < n_hyp && overlap@[k]@[cs[k]]
                    > 0 {
                    Some(assignment@[k])
                } else {
                    None
                }),
        decreases n_ref - x,
    {
        let h: usize = assignment[x];
        proof {
            assert(cs[x as int] == h);
        }
        // A padded column is not a real label, and a zero-overlap match is not
        // evidence of anything.
        if h < n_hyp && overlap[x][h] > 0 {
            mapping.push(Some(h));
        } else {
            mapping.push(None);
        }
        x = x + 1;
    }
    proof {
        assert forall|k: int| 0 <= k < n_ref && (#[trigger] mapping@[k]) is Some implies mapping@[k]->0
            < n_hyp && cs[k] == mapping@[k]->0 by {}
        assert forall|k: int, s: int|
            0 <= k < s < n_ref && (#[trigger] mapping@[k]) is Some && (#[trigger] mapping@[s]) is Some implies mapping@[k]->0
            != mapping@[s]->0 by {
            assert(cs[k] != cs[s]);
        }
        assert forall|k: int| 0 <= k < n_ref && (#[trigger] mapping@[k]) is None implies cs[k]
            >= n_hyp || overlap@[k]@[cs[k]] == 0 by {
            assert(0 <= cs[k] < n);
            if cs[k] < n_hyp {
                assert(0 <= overlap@[k]@[cs[k]] <= COST_LIMIT);
            }
        }
        lemma_weight_below(cost@, overlap@, n_ref as int, n_hyp as int, mapping@, cs);
        assert forall|other: Seq<Option<usize>>|
            maps(other, n_ref as int, n_hyp as int) implies #[trigger] weight(overlap@, other)
            <= weight(overlap@, mapping@) by {
            let part = Seq::new(
                n as nat,
                |k: int|
                    if k < n_ref && other[k] is Some {
                        Some(other[k]->0 as int)
                    } else {
                        None
                    },
            );
            assert forall|k: int, s: int|
                0 <= k < s < n && (#[trigger] part[k]) is Some && (#[trigger] part[s]) is Some implies part[k]->0
                != part[s]->0 by {
                assert(other[k] is Some && other[s] is Some);
            }
            assert forall|k: int| 0 <= k < n && (#[trigger] part[k]) is Some implies 0 <= part[k]->0
                < n by {
                assert(other[k] is Some);
            }
            let full = lemma_complete(part, n as int, 0);
            assert forall|k: int| 0 <= k < other.len() && (#[trigger] other[k]) is Some implies other[k]->0
                < n_hyp && full[k] == other[k]->0 by {
                assert(part[k] is Some);
            }
            lemma_weight_below(cost@, overlap@, n_ref as int, n_hyp as int, other, full);
            assert(total(cost@, cs) <= total(cost@, full));
        }
    }
    mapping
}

/// The total is a sum over rows: giving one row another column changes it by the
/// difference of the two costs and nothing else.
pub proof fn each_row_adds_its_cost(cost: Seq<Vec<i64>>, columns: Seq<int>, r: int, c: int)
    requires
        0 <= r < columns.len(),
    ensures
        total(cost, Seq::<int>::empty()) == 0,
        total(cost, columns.update(r, c)) - total(cost, columns) == cost[r]@[c]
            - cost[r]@[columns[r]],
        total(cost, seq![c]) == cost[0]@[c],
    decreases columns.len(),
{
    let now = columns.update(r, c);
    assert(seq![c].drop_last() == Seq::<int>::empty());
    assert(total(cost, Seq::<int>::empty()) == 0);
    assert(seq![c].last() == c);
    if r == columns.len() - 1 {
        assert(now.drop_last() == columns.drop_last());
    } else {
        each_row_adds_its_cost(cost, columns.drop_last(), r, c);
        assert(now.drop_last() == columns.drop_last().update(r, c));
        assert(now.last() == columns.last());
    }
}

} // verus!
