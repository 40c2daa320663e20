//! Minimum-cost assignment of the rows of a wide matrix: the shortest
//! augmenting-path form of the Hungarian algorithm.
//!
//! Rows are taken in one after the other. Each new row is the root of a tree
//! of alternating paths that grows, column by column, along reduced costs of
//! 0 until it reaches a column that no row holds yet; the path to that column
//! then shifts every row on it by one column. In the vector of row holders the
//! number of rows stands for "no row"; as a column, the number of columns
//! stands for the root of the tree.

use crate::duality::{lemma_distinct_below, lemma_potentials_certify, reduced};
use crate::matrix::{
    ascending_rows, is_assignment, is_minimum_assignment, matrix, rectangular, width,
};
use crate::procedure::{
    augmented, hole_after, is_nearest, lemma_augmented, lemma_nearest, lemma_search_end, moved_on,
    nearest, progress, row_in_tree, wide_assignment, Progress, Search,
};
use vstd::prelude::*;

verus! {

/// No cost is farther from 0 than this.
const COST_BOUND: i128 = 0x8000_0000_0000_0000;

/// `costs` is a matrix of `n` rows and `m` columns, with potentials for each
/// and a holder for each column.
spec fn shaped(costs: Seq<Seq<i64>>, u: Seq<i128>, v: Seq<i128>, holder: Seq<usize>) -> bool {
    &&& rectangular(costs)
    &&& 0 < costs.len() <= width(costs)
    &&& u.len() == costs.len()
    &&& v.len() == width(costs)
    &&& holder.len() == width(costs)
}

/// Potentials stay in a range that `i128` holds with room to spare.
spec fn bounded(u: Seq<i128>, v: Seq<i128>) -> bool {
    &&& forall|i: int| 0 <= i < u.len() ==> -COST_BOUND <= #[trigger] u[i] <= COST_BOUND
    &&& forall|j: int| 0 <= j < v.len() ==> -2 * COST_BOUND <= #[trigger] v[j] <= 0
}

/// No reduced cost in the first `rows` rows is negative.
spec fn feasible(costs: Seq<Seq<i64>>, u: Seq<i128>, v: Seq<i128>, rows: int) -> bool {
    forall|i: int, j: int|
        0 <= i < rows && 0 <= j < v.len() ==> #[trigger] reduced(costs, u, v, i, j) >= 0
}

/// Each of the first `rows` rows holds one column, the others none, and no
/// column is held twice.
spec fn matches_rows(holder: Seq<usize>, n: int, rows: int) -> bool {
    &&& forall|j: int| 0 <= j < holder.len() ==> #[trigger] holder[j] < rows || holder[j] == n
    &&& forall|j: int, k: int|
        0 <= j < k < holder.len() && #[trigger] holder[j] != n ==> holder[j]
            != #[trigger] holder[k]
    &&& forall|i: int| 0 <= i < rows ==> #[trigger] holder.contains(i as usize)
}

/// Held columns have reduced cost 0 at their holder, the others potential 0.
spec fn tight(costs: Seq<Seq<i64>>, u: Seq<i128>, v: Seq<i128>, holder: Seq<usize>) -> bool {
    &&& forall|j: int|
        0 <= j < holder.len() && holder[j] < costs.len() ==> reduced(
            costs,
            u,
            v,
            #[trigger] holder[j] as int,
            j,
        ) == 0
    &&& forall|j: int| 0 <= j < holder.len() && holder[j] == costs.len() ==> #[trigger] v[j] == 0
}

/// The state between two rows: the first `rows` rows hold a column each, at
/// the least total cost that the potentials certify.
spec fn settled(
    costs: Seq<Seq<i64>>,
    u: Seq<i128>,
    v: Seq<i128>,
    holder: Seq<usize>,
    rows: int,
) -> bool {
    &&& shaped(costs, u, v, holder)
    &&& bounded(u, v)
    &&& feasible(costs, u, v, rows)
    &&& matches_rows(holder, costs.len() as int, rows)
    &&& tight(costs, u, v, holder)
    &&& forall|i: int| rows <= i < costs.len() ==> #[trigger] u[i] == 0
}

/// The row at column `j`; the new row `row` sits at the root.
spec fn row_at(holder: Seq<usize>, row: int, j: int) -> int {
    if j == holder.len() {
        row
    } else {
        holder[j] as int
    }
}

/// Column `j` is in the tree, or is its root. `rank` numbers the columns of
/// the tree, from 1, in the order in which they joined; 0 is for the others.
spec fn in_tree(rank: Seq<int>, j: int) -> bool {
    j == rank.len() || (0 <= j < rank.len() && rank[j] > 0)
}

/// Every column of the tree hangs, by a reduced cost of 0, on one that joined
/// the tree before it.
spec fn tree_edges(
    costs: Seq<Seq<i64>>,
    u: Seq<i128>,
    v: Seq<i128>,
    holder: Seq<usize>,
    row: int,
    predecessor: Seq<usize>,
    rank: Seq<int>,
) -> bool {
    &&& rank.len() == holder.len()
    &&& predecessor.len() == holder.len()
    &&& forall|j: int|
        0 <= j < rank.len() && #[trigger] rank[j] > 0 ==> {
            &&& in_tree(rank, predecessor[j] as int)
            &&& predecessor[j] < rank.len() ==> rank[predecessor[j] as int] < rank[j]
            &&& reduced(costs, u, v, row_at(holder, row, predecessor[j] as int), j) == 0
        }
}

/// A matrix with more columns than matched rows has a free column.
proof fn lemma_free_column(holder: Seq<usize>, n: int, rows: int) -> (free: int)
    requires
        matches_rows(holder, n, rows),
        0 <= rows < holder.len(),
    ensures
        0 <= free < holder.len(),
        holder[free] == n,
{
    if forall|j: int| 0 <= j < holder.len() ==> #[trigger] holder[j] != n {
        let numbers = Seq::new(holder.len(), |j: int| holder[j] as int);
        assert forall|j: int, k: int|
            0 <= j < numbers.len() && 0 <= k < numbers.len() && j != k implies numbers[j]
            != numbers[k] by {
            assert(holder[j] != n && holder[k] != n);
            if j < k {
                assert(holder[j] != holder[k]);
            } else {
                assert(holder[k] != holder[j]);
            }
        }
        assert forall|j: int| 0 <= j < numbers.len() implies 0 <= #[trigger] numbers[j] < rows by {
            assert(holder[j] != n);
        }
        lemma_distinct_below(numbers, rows);
        0
    } else {
        choose|j: int| 0 <= j < holder.len() && #[trigger] holder[j] == n
    }
}

/// For every column outside the tree: `slack` is the least reduced cost from a
/// row of the tree, and `predecessor` a column at whose row it is found.
spec fn slack_exact(
    costs: Seq<Seq<i64>>,
    u: Seq<i128>,
    v: Seq<i128>,
    holder: Seq<usize>,
    row: int,
    predecessor: Seq<usize>,
    slack: Seq<i128>,
    rank: Seq<int>,
) -> bool {
    &&& slack.len() == holder.len()
    &&& predecessor.len() == holder.len()
    &&& forall|j: int|
        #![trigger slack[j]]
        #![trigger predecessor[j]]
        0 <= j < rank.len() && rank[j] == 0 ==> {
            &&& in_tree(rank, predecessor[j] as int)
            &&& slack[j] == reduced(
                costs,
                u,
                v,
                row_at(holder, row, predecessor[j] as int),
                j,
            )
        }
    &&& forall|j: int, k: int|
        0 <= j < rank.len() && rank[j] == 0 && in_tree(rank, k) ==> slack[j]
            <= #[trigger] reduced(costs, u, v, row_at(holder, row, k), j)
}

/// What holds all through the search for the column that row `row` adds.
spec fn tree_state(
    costs: Seq<Seq<i64>>,
    u: Seq<i128>,
    v: Seq<i128>,
    holder: Seq<usize>,
    row: int,
    predecessor: Seq<usize>,
    rank: Seq<int>,
    step: int,
) -> bool {
    &&& shaped(costs, u, v, holder)
    &&& 0 <= row < costs.len()
    &&& bounded(u, v)
    &&& feasible(costs, u, v, row)
    &&& matches_rows(holder, costs.len() as int, row)
    &&& tight(costs, u, v, holder)
    &&& forall|i: int| row < i < costs.len() ==> #[trigger] u[i] == 0
    &&& tree_edges(costs, u, v, holder, row, predecessor, rank)
    &&& forall|j: int|
        0 <= j < rank.len() ==> 0 <= #[trigger] rank[j] && (rank[j] > 0 ==> rank[j] < step
            && holder[j] < costs.len())
}

/// The state after at least one step of the search: row `row` is feasible too,
/// and `current`, outside the tree, can be reached at reduced cost 0.
spec fn reached(
    costs: Seq<Seq<i64>>,
    u: Seq<i128>,
    v: Seq<i128>,
    holder: Seq<usize>,
    row: int,
    predecessor: Seq<usize>,
    slack: Seq<i128>,
    rank: Seq<int>,
    step: int,
    current: int,
) -> bool {
    &&& tree_state(costs, u, v, holder, row, predecessor, rank, step)
    &&& step > 0
    &&& feasible(costs, u, v, row + 1)
    &&& slack_exact(costs, u, v, holder, row, predecessor, slack, rank)
    &&& 0 <= current < rank.len()
    &&& rank[current] == 0
    &&& slack[current] == 0
}

/// The state before the first step: the tree is its root alone.
spec fn rooted(
    costs: Seq<Seq<i64>>,
    u: Seq<i128>,
    v: Seq<i128>,
    holder: Seq<usize>,
    row: int,
    predecessor: Seq<usize>,
    slack: Seq<i128>,
    rank: Seq<int>,
) -> bool {
    &&& settled(costs, u, v, holder, row)
    &&& 0 <= row < costs.len()
    &&& rank =~= Seq::new(holder.len(), |j: int| 0int)
    &&& predecessor.len() == holder.len()
    &&& slack.len() == holder.len()
    &&& forall|j: int| 0 <= j < slack.len() ==> #[trigger] slack[j] == i128::MAX
}

/// Moving `delta` from the potentials of the tree's columns to those of its
/// rows makes the nearest column reachable at reduced cost 0 and keeps the
/// rest of the state.
proof fn lemma_shift_tree(
    costs: Seq<Seq<i64>>,
    u0: Seq<i128>,
    v0: Seq<i128>,
    slack0: Seq<i128>,
    u: Seq<i128>,
    v: Seq<i128>,
    slack: Seq<i128>,
    holder: Seq<usize>,
    row: int,
    predecessor: Seq<usize>,
    rank: Seq<int>,
    step: int,
    delta: int,
    next: int,
    free: int,
)
    requires
        tree_state(costs, u0, v0, holder, row, predecessor, rank, step),
        step > 0,
        slack_exact(costs, u0, v0, holder, row, predecessor, slack0, rank),
        step > 1 ==> feasible(costs, u0, v0, row + 1) && delta >= 0,
        step == 1 ==> (forall|j: int| 0 <= j < rank.len() ==> #[trigger] rank[j] == 0) && u0[row] == 0,
        0 <= next < rank.len(),
        rank[next] == 0,
        slack0[next] == delta,
        forall|j: int| 0 <= j < rank.len() && rank[j] == 0 ==> delta <= #[trigger] slack0[j],
        0 <= free < rank.len(),
        holder[free] == costs.len(),
        u.len() == u0.len(),
        v.len() == v0.len(),
        slack.len() == slack0.len(),
        u[row] == u0[row] + delta,
        forall|j: int|
            0 <= j < rank.len() && #[trigger] rank[j] > 0 ==> u[holder[j] as int]
                == u0[holder[j] as int] + delta,
        forall|i: int|
            0 <= i < u.len() && i != row && (forall|j: int|
                0 <= j < rank.len() && #[trigger] rank[j] > 0 ==> holder[j] != i)
                ==> #[trigger] u[i] == u0[i],
        forall|j: int|
            0 <= j < rank.len() ==> #[trigger] v[j] == if rank[j] > 0 {
                v0[j] - delta
            } else {
                v0[j] as int
            },
        forall|j: int|
            0 <= j < rank.len() && rank[j] == 0 ==> #[trigger] slack[j] == slack0[j] - delta,
    ensures
        reached(costs, u, v, holder, row, predecessor, slack, rank, step, next),
{
    let m = rank.len() as int;
    assert forall|k: int| in_tree(rank, k) implies 0 <= #[trigger] row_at(holder, row, k) <= row
        && u[row_at(holder, row, k)] == u0[row_at(holder, row, k)] + delta by {
        if k < m {
            assert(rank[k] > 0);
            assert(holder[k] < row);
        }
    }
    // Reduced costs at a row of the tree.
    assert forall|k: int, j: int| in_tree(rank, k) && 0 <= j < m implies #[trigger] reduced(
        costs,
        u,
        v,
        row_at(holder, row, k),
        j,
    ) == reduced(costs, u0, v0, row_at(holder, row, k), j) - if rank[j] > 0 {
        0
    } else {
        delta
    } by {
        assert(rank[j] >= 0);
        assert(v[j] == if rank[j] > 0 { v0[j] - delta } else { v0[j] as int });
        assert(u[row_at(holder, row, k)] == u0[row_at(holder, row, k)] + delta);
    }
    assert forall|i: int, j: int| 0 <= i < row + 1 && 0 <= j < m implies #[trigger] reduced(
        costs,
        u,
        v,
        i,
        j,
    ) >= 0 by {
        assert(rank[j] >= 0);
        assert(v[j] == if rank[j] > 0 { v0[j] - delta } else { v0[j] as int });
        if i == row {
            assert(in_tree(rank, m));
            assert(row_at(holder, row, m) == i);
            assert(reduced(costs, u, v, row_at(holder, row, m), j) == reduced(
                costs,
                u0,
                v0,
                i,
                j,
            ) - if rank[j] > 0 { 0 } else { delta });
            if rank[j] == 0 {
                assert(slack0[j] <= reduced(costs, u0, v0, row_at(holder, row, m), j));
            }
        } else if exists|k: int| 0 <= k < m && #[trigger] rank[k] > 0 && holder[k] == i {
            let k = choose|k: int| 0 <= k < m && #[trigger] rank[k] > 0 && holder[k] == i;
            assert(in_tree(rank, k));
            assert(row_at(holder, row, k) == i);
            assert(reduced(costs, u, v, row_at(holder, row, k), j) == reduced(
                costs,
                u0,
                v0,
                i,
                j,
            ) - if rank[j] > 0 { 0 } else { delta });
            assert(reduced(costs, u0, v0, i, j) >= 0);
            if rank[j] == 0 {
                assert(slack0[j] <= reduced(costs, u0, v0, row_at(holder, row, k), j));
            }
        } else {
            assert(u[i] == u0[i]);
            assert(reduced(costs, u0, v0, i, j) >= 0);
        }
    }
    assert(feasible(costs, u, v, row + 1));
    assert forall|j: int| 0 <= j < m && holder[j] < costs.len() implies reduced(
        costs,
        u,
        v,
        #[trigger] holder[j] as int,
        j,
    ) == 0 by {
        let i = holder[j] as int;
        assert(rank[j] >= 0);
        assert(reduced(costs, u0, v0, i, j) == 0);
        assert(v[j] == if rank[j] > 0 { v0[j] - delta } else { v0[j] as int });
        if rank[j] > 0 {
            assert(u[i] == u0[i] + delta);
        } else {
            assert forall|k: int| 0 <= k < m && #[trigger] rank[k] > 0 implies holder[k] != i by {
                assert(k != j);
                assert(holder[j] != costs.len() && holder[k] != costs.len());
                if k < j {
                    assert(holder[k] != holder[j]);
                } else {
                    assert(holder[j] != holder[k]);
                }
            }
            assert(u[i] == u0[i]);
        }
    }
    assert forall|j: int| 0 <= j < m && holder[j] == costs.len() implies #[trigger] v[j] == 0 by {
        assert(rank[j] >= 0);
        assert(v0[j] == 0);
    }
    assert(tight(costs, u, v, holder));
    // The free column bounds the row potentials, the row potentials bound the
    // column potentials.
    assert forall|i: int| 0 <= i < u.len() implies -COST_BOUND <= #[trigger] u[i] <= COST_BOUND by {
        assert(-COST_BOUND <= u0[i] <= COST_BOUND);
        if i <= row {
            assert(reduced(costs, u, v, i, free) >= 0);
            assert(v[free] == 0);
            if i == row {
                if step == 1 {
                    assert(rank[next] == 0);
                    assert(in_tree(rank, predecessor[next] as int));
                    assert(predecessor[next] == m) by {
                        if predecessor[next] < m {
                            assert(rank[predecessor[next] as int] == 0);
                        }
                    }
                    assert(delta == reduced(costs, u0, v0, row, next));
                    assert(v0[next] <= 0);
                }
            } else if exists|k: int| 0 <= k < m && #[trigger] rank[k] > 0 && holder[k] == i {
                let k = choose|k: int| 0 <= k < m && #[trigger] rank[k] > 0 && holder[k] == i;
                assert(u[holder[k] as int] == u0[holder[k] as int] + delta);
                assert(rank[k] > 0 ==> step > 1);
            } else {
                assert(u[i] == u0[i]);
            }
        } else {
            assert forall|j: int| 0 <= j < m && #[trigger] rank[j] > 0 implies holder[j] != i by {
                assert(holder[j] < row);
            }
            assert(u[i] == u0[i]);
        }
    }
    assert forall|j: int| 0 <= j < v.len() implies -2 * COST_BOUND <= #[trigger] v[j] <= 0 by {
        assert(rank[j] >= 0);
        assert(-2 * COST_BOUND <= v0[j] <= 0);
        if rank[j] > 0 {
            assert(holder[j] < costs.len());
            assert(reduced(costs, u, v, holder[j] as int, j) == 0);
            assert(u[holder[j] as int] <= COST_BOUND);
        }
    }
    assert forall|j: int| 0 <= j < m && #[trigger] rank[j] > 0 implies {
        &&& in_tree(rank, predecessor[j] as int)
        &&& predecessor[j] < rank.len() ==> rank[predecessor[j] as int] < rank[j]
        &&& reduced(costs, u, v, row_at(holder, row, predecessor[j] as int), j) == 0
    } by {
        assert(in_tree(rank, predecessor[j] as int));
        assert(reduced(costs, u0, v0, row_at(holder, row, predecessor[j] as int), j) == 0);
    }
    assert forall|i: int| row < i < costs.len() implies #[trigger] u[i] == 0 by {
        assert forall|j: int| 0 <= j < m && #[trigger] rank[j] > 0 implies holder[j] != i by {
            assert(holder[j] < row);
        }
        assert(u[i] == u0[i]);
    }
    assert(feasible(costs, u, v, row));
    assert forall|j: int|
        #![trigger slack[j]]
        #![trigger predecessor[j]]
        0 <= j < m && rank[j] == 0 implies {
        &&& in_tree(rank, predecessor[j] as int)
        &&& slack[j] == reduced(
            costs,
            u,
            v,
            row_at(holder, row, predecessor[j] as int),
            j,
        )
    } by {
        assert(slack0[j] == reduced(
            costs,
            u0,
            v0,
            row_at(holder, row, predecessor[j] as int),
            j,
        ));
    }
    assert forall|j: int, k: int| 0 <= j < m && rank[j] == 0 && in_tree(rank, k) implies slack[j]
        <= #[trigger] reduced(costs, u, v, row_at(holder, row, k), j) by {
        assert(slack0[j] <= reduced(costs, u0, v0, row_at(holder, row, k), j));
        assert(slack[j] == slack0[j] - delta);
    }
    assert(slack[next] == 0);
    assert(bounded(u, v));
    assert(tree_edges(costs, u, v, holder, row, predecessor, rank));
    assert(tree_state(costs, u, v, holder, row, predecessor, rank, step));
    assert(slack_exact(costs, u, v, holder, row, predecessor, slack, rank));
}

/// `slack` and `predecessor` are the old ones, lowered where the row at
/// `current` is nearer.
#[verifier::opaque]
spec fn relaxed(
    costs: Seq<Seq<i64>>,
    u: Seq<i128>,
    v: Seq<i128>,
    current_row: int,
    current: int,
    used: Seq<bool>,
    slack0: Seq<i128>,
    predecessor0: Seq<usize>,
    slack: Seq<i128>,
    predecessor: Seq<usize>,
) -> bool {
    &&& slack.len() == used.len()
    &&& predecessor.len() == used.len()
    &&& forall|j: int|
        #![trigger slack[j]]
        #![trigger predecessor[j]]
        0 <= j < used.len() ==> if !used[j] && reduced(costs, u, v, current_row, j) < slack0[j] {
            &&& slack[j] == reduced(costs, u, v, current_row, j)
            &&& predecessor[j] == current
        } else {
            &&& slack[j] == slack0[j]
            &&& predecessor[j] == predecessor0[j]
        }
}

/// `used` marks the columns of the tree.
spec fn marks_tree(used: Seq<bool>, rank: Seq<int>) -> bool {
    &&& used.len() == rank.len()
    &&& forall|j: int|
        #![trigger used[j]]
        #![trigger rank[j]]
        0 <= j < rank.len() ==> (used[j] <==> rank[j] > 0)
}

/// The potentials and the slack after moving `delta` from the columns marked
/// in `used` to their holders and to row `row`.
#[verifier::opaque]
spec fn shifted(
    holder: Seq<usize>,
    row: int,
    used: Seq<bool>,
    delta: int,
    u0: Seq<i128>,
    v0: Seq<i128>,
    slack0: Seq<i128>,
    u: Seq<i128>,
    v: Seq<i128>,
    slack: Seq<i128>,
) -> bool {
    &&& u.len() == u0.len()
    &&& v.len() == v0.len()
    &&& slack.len() == slack0.len()
    &&& u[row] == u0[row] + delta
    &&& forall|j: int|
        0 <= j < used.len() && #[trigger] used[j] ==> u[holder[j] as int] == u0[holder[j] as int]
            + delta
    &&& forall|i: int|
        0 <= i < u.len() && i != row && (forall|j: int|
            0 <= j < used.len() && #[trigger] used[j] ==> holder[j] != i) ==> #[trigger] u[i]
            == u0[i]
    &&& forall|j: int|
        0 <= j < used.len() ==> #[trigger] v[j] == if used[j] {
            v0[j] - delta
        } else {
            v0[j] as int
        }
    &&& forall|j: int|
        0 <= j < used.len() ==> #[trigger] slack[j] == if used[j] {
            slack0[j] as int
        } else {
            slack0[j] - delta
        }
}

/// A shift by the least slack reaches the nearest column.
proof fn lemma_shift(
    costs: Seq<Seq<i64>>,
    u0: Seq<i128>,
    v0: Seq<i128>,
    slack0: Seq<i128>,
    u: Seq<i128>,
    v: Seq<i128>,
    slack: Seq<i128>,
    holder: Seq<usize>,
    row: int,
    predecessor: Seq<usize>,
    rank: Seq<int>,
    used: Seq<bool>,
    step: int,
    next: int,
    free: int,
)
    requires
        tree_state(costs, u0, v0, holder, row, predecessor, rank, step),
        step > 0,
        slack_exact(costs, u0, v0, holder, row, predecessor, slack0, rank),
        step > 1 ==> feasible(costs, u0, v0, row + 1) && slack0[next] >= 0,
        step == 1 ==> (forall|j: int| 0 <= j < rank.len() ==> #[trigger] rank[j] == 0) && u0[row]
            == 0,
        marks_tree(used, rank),
        is_nearest(slack0, used, next),
        0 <= free < rank.len(),
        holder[free] == costs.len(),
        shifted(holder, row, used, slack0[next] as int, u0, v0, slack0, u, v, slack),
    ensures
        reached(costs, u, v, holder, row, predecessor, slack, rank, step, next),
{
    reveal(shifted);
    let delta = slack0[next] as int;
    assert(!used[next]);
    assert(rank[next] >= 0);
    assert forall|j: int| 0 <= j < rank.len() && rank[j] == 0 implies delta
        <= #[trigger] slack0[j] by {
        assert(!used[j]);
    }
    assert forall|j: int| 0 <= j < rank.len() && #[trigger] rank[j] > 0 implies u[holder[j] as int]
        == u0[holder[j] as int] + delta by {
        assert(used[j]);
    }
    assert forall|i: int|
        0 <= i < u.len() && i != row && (forall|j: int|
            0 <= j < rank.len() && #[trigger] rank[j] > 0 ==> holder[j] != i) implies
        #[trigger] u[i] == u0[i] by {
        assert forall|j: int| 0 <= j < used.len() && #[trigger] used[j] implies holder[j] != i by {
            assert(rank[j] > 0);
        }
    }
    assert forall|j: int| 0 <= j < rank.len() implies #[trigger] v[j] == if rank[j] > 0 {
        v0[j] - delta
    } else {
        v0[j] as int
    } by {
        assert(used[j] <==> rank[j] > 0);
    }
    assert forall|j: int| 0 <= j < rank.len() && rank[j] == 0 implies #[trigger] slack[j]
        == slack0[j] - delta by {
        assert(!used[j]);
    }
    lemma_shift_tree(
        costs,
        u0,
        v0,
        slack0,
        u,
        v,
        slack,
        holder,
        row,
        predecessor,
        rank,
        step,
        delta,
        next,
        free,
    );
}

/// Looks at every column outside the tree from the row that joined it last,
/// and finds the first of those with the least slack.
fn relax(
    costs: &[Vec<i64>],
    current_row: usize,
    current: usize,
    row_potential: &Vec<i128>,
    column_potential: &Vec<i128>,
    used: &Vec<bool>,
    minimum_slack: &mut Vec<i128>,
    predecessor: &mut Vec<usize>,
    Ghost(free): Ghost<int>,
) -> (nearest: (i128, usize))
    requires
        rectangular(matrix(costs@)),
        current_row < costs.len(),
        row_potential.len() == costs.len(),
        column_potential.len() == width(matrix(costs@)),
        bounded(row_potential@, column_potential@),
        used.len() == column_potential.len(),
        old(minimum_slack).len() == used.len(),
        old(predecessor).len() == used.len(),
        0 <= free < used.len(),
        !used[free],
    ensures
        final(minimum_slack).len() == used.len(),
        final(predecessor).len() == used.len(),
        relaxed(
            matrix(costs@),
            row_potential@,
            column_potential@,
            current_row as int,
            current as int,
            used@,
            old(minimum_slack)@,
            old(predecessor)@,
            final(minimum_slack)@,
            final(predecessor)@,
        ),
        is_nearest(final(minimum_slack)@, used@, nearest.1 as int),
        final(minimum_slack)@[nearest.1 as int] == nearest.0,
{
    let ghost c = matrix(costs@);
    let ghost slack0 = minimum_slack@;
    let ghost predecessor0 = predecessor@;
    let mut delta: i128 = i128::MAX;
    let columns: usize = used.len();
    let mut next_column: usize = columns;
    for column in 0..columns
        invariant
            c == matrix(costs@),
            columns == used.len(),
            rectangular(c),
            current_row < costs.len(),
            row_potential.len() == costs.len(),
            column_potential.len() == width(c),
            bounded(row_potential@, column_potential@),
            used.len() == column_potential.len(),
            slack0.len() == columns,
            predecessor0.len() == columns,
            minimum_slack.len() == columns,
            predecessor.len() == columns,
            forall|j: int|
                #![trigger minimum_slack@[j]]
                #![trigger predecessor@[j]]
                0 <= j < column ==> if !used[j] && reduced(
                    c,
                    row_potential@,
                    column_potential@,
                    current_row as int,
                    j,
                ) < slack0[j] {
                    &&& minimum_slack@[j] == reduced(
                        c,
                        row_potential@,
                        column_potential@,
                        current_row as int,
                        j,
                    )
                    &&& predecessor@[j] == current
                } else {
                    &&& minimum_slack@[j] == slack0[j]
                    &&& predecessor@[j] == predecessor0[j]
                },
            forall|j: int|
                #![trigger minimum_slack@[j]]
                #![trigger predecessor@[j]]
                column <= j < columns ==> minimum_slack@[j] == slack0[j] && predecessor@[j]
                    == predecessor0[j],
            next_column == columns ==> delta == i128::MAX && (forall|j: int|
                0 <= j < column ==> #[trigger] used[j]),
            next_column != columns ==> next_column < column && !used[next_column as int]
                && minimum_slack@[next_column as int] == delta,
            forall|j: int| 0 <= j < column && !used[j] ==> delta <= #[trigger] minimum_slack@[j],
            forall|j: int|
                0 <= j < next_column && j < column && !used[j] ==> delta
                    < #[trigger] minimum_slack@[j],
    {
        if !used[column] {
            assert(c[current_row as int].len() == columns);
            assert(costs@[current_row as int]@ == c[current_row as int]);
            assert(-COST_BOUND <= row_potential@[current_row as int] <= COST_BOUND);
            assert(-2 * COST_BOUND <= column_potential@[column as int] <= 0);
            let reduced_cost: i128 = costs[current_row][column] as i128
                - row_potential[current_row] - column_potential[column];
            if reduced_cost < minimum_slack[column] {
                minimum_slack.set(column, reduced_cost);
                predecessor.set(column, current);
            }
            if minimum_slack[column] < delta {
                delta = minimum_slack[column];
                next_column = column;
            }
        }
    }
    assert(!used[free]);
    proof {
        reveal(relaxed);
    }
    (delta, next_column)
}

/// Moves `delta` from the columns of the tree to its rows, and lowers the
/// slack of the columns outside by as much.
fn shift(
    row: usize,
    delta: i128,
    used: &Vec<bool>,
    matched_row: &Vec<usize>,
    row_potential: &mut Vec<i128>,
    column_potential: &mut Vec<i128>,
    minimum_slack: &mut Vec<i128>,
)
    requires
        row < old(row_potential).len(),
        matches_rows(matched_row@, old(row_potential).len() as int, row as int),
        used.len() == matched_row.len(),
        old(column_potential).len() == matched_row.len(),
        old(minimum_slack).len() == matched_row.len(),
        bounded(old(row_potential)@, old(column_potential)@),
        -8 * COST_BOUND <= delta <= 8 * COST_BOUND,
        forall|j: int|
            0 <= j < used.len() && !used[j] ==> -8 * COST_BOUND <= #[trigger] old(minimum_slack)@[j]
                <= 8 * COST_BOUND,
        forall|j: int|
            0 <= j < used.len() && #[trigger] used[j] ==> matched_row[j] < old(row_potential).len(),
    ensures
        final(row_potential).len() == old(row_potential).len(),
        final(column_potential).len() == old(column_potential).len(),
        final(minimum_slack).len() == old(minimum_slack).len(),
        shifted(
            matched_row@,
            row as int,
            used@,
            delta as int,
            old(row_potential)@,
            old(column_potential)@,
            old(minimum_slack)@,
            final(row_potential)@,
            final(column_potential)@,
            final(minimum_slack)@,
        ),
{
    let ghost u0 = row_potential@;
    let ghost v0 = column_potential@;
    let ghost slack0 = minimum_slack@;
    let columns: usize = used.len();
    assert(-COST_BOUND <= u0[row as int] <= COST_BOUND);
    row_potential.set(row, row_potential[row] + delta);
    for column in 0..columns
        invariant
            columns == used.len(),
            row < u0.len(),
            matches_rows(matched_row@, u0.len() as int, row as int),
            used.len() == matched_row.len(),
            column_potential.len() == columns,
            v0.len() == columns,
            slack0.len() == columns,
            row_potential.len() == u0.len(),
            minimum_slack.len() == columns,
            bounded(u0, v0),
            -8 * COST_BOUND <= delta <= 8 * COST_BOUND,
            forall|j: int|
                0 <= j < used.len() && !used[j] ==> -8 * COST_BOUND <= #[trigger] slack0[j] <= 8
                    * COST_BOUND,
            forall|j: int|
                0 <= j < used.len() && #[trigger] used[j] ==> matched_row[j] < u0.len(),
            row_potential@[row as int] == u0[row as int] + delta,
            forall|j: int|
                0 <= j < column && #[trigger] used[j] ==> row_potential@[matched_row[j] as int]
                    == u0[matched_row[j] as int] + delta,
            forall|j: int|
                column <= j < columns && #[trigger] used[j] ==> row_potential@[matched_row[j] as int]
                    == u0[matched_row[j] as int],
            forall|i: int|
                0 <= i < u0.len() && i != row && (forall|j: int|
                    0 <= j < used.len() && #[trigger] used[j] ==> matched_row[j] != i)
                    ==> #[trigger] row_potential@[i] == u0[i],
            forall|j: int|
                0 <= j < column ==> #[trigger] column_potential@[j] == if used[j] {
                    v0[j] - delta
                } else {
                    v0[j] as int
                },
            forall|j: int| column <= j < columns ==> #[trigger] column_potential@[j] == v0[j],
            forall|j: int|
                0 <= j < column ==> #[trigger] minimum_slack@[j] == if used[j] {
                    slack0[j] as int
                } else {
                    slack0[j] - delta
                },
            forall|j: int| column <= j < columns ==> #[trigger] minimum_slack@[j] == slack0[j],
    {
        if used[column] {
            let holder: usize = matched_row[column];
            assert(holder < row);
            assert(-COST_BOUND <= u0[holder as int] <= COST_BOUND);
            assert(-2 * COST_BOUND <= v0[column as int] <= 0);
            assert forall|j: int| 0 <= j < columns && j != column && #[trigger] used[j] implies
                matched_row[j] != holder by {
                if j < column {
                    assert(matched_row@[j] != matched_row@[column as int]);
                } else {
                    assert(matched_row@[column as int] != matched_row@[j]);
                }
            }
            row_potential.set(holder, row_potential[holder] + delta);
            column_potential.set(column, column_potential[column] - delta);
        } else {
            minimum_slack.set(column, minimum_slack[column] - delta);
        }
    }
    proof {
        reveal(shifted);
    }
}

/// The first step looks from the root.
proof fn lemma_relax_from_root(
    costs: Seq<Seq<i64>>,
    u: Seq<i128>,
    v: Seq<i128>,
    holder: Seq<usize>,
    row: int,
    predecessor0: Seq<usize>,
    slack0: Seq<i128>,
    predecessor: Seq<usize>,
    slack: Seq<i128>,
    rank: Seq<int>,
    used: Seq<bool>,
)
    requires
        rooted(costs, u, v, holder, row, predecessor0, slack0, rank),
        marks_tree(used, rank),
        relaxed(
            costs,
            u,
            v,
            row,
            holder.len() as int,
            used,
            slack0,
            predecessor0,
            slack,
            predecessor,
        ),
    ensures
        tree_state(costs, u, v, holder, row, predecessor, rank, 1),
        slack_exact(costs, u, v, holder, row, predecessor, slack, rank),
        forall|j: int|
            0 <= j < used.len() && !used[j] ==> -8 * COST_BOUND <= #[trigger] slack[j] <= 8
                * COST_BOUND,
{
    reveal(relaxed);
    let m = holder.len() as int;
    assert forall|j: int|
        #![trigger slack[j]]
        #![trigger predecessor[j]]
        0 <= j < m implies slack[j] == reduced(costs, u, v, row, j) && predecessor[j] == m && -8
        * COST_BOUND <= slack[j] <= 8 * COST_BOUND by {
        assert(rank[j] == 0);
        assert(!used[j]);
        assert(slack0[j] == i128::MAX);
        assert(-COST_BOUND <= u[row] <= COST_BOUND);
        assert(-2 * COST_BOUND <= v[j] <= 0);
    }
    assert forall|j: int, k: int| 0 <= j < m && rank[j] == 0 && in_tree(rank, k) implies slack[j]
        <= #[trigger] reduced(costs, u, v, row_at(holder, row, k), j) by {
        if k < m {
            assert(rank[k] == 0);
        }
    }
}

/// A later step takes in the column that was reached and looks from there.
proof fn lemma_relax_from_column(
    costs: Seq<Seq<i64>>,
    u: Seq<i128>,
    v: Seq<i128>,
    holder: Seq<usize>,
    row: int,
    predecessor0: Seq<usize>,
    slack0: Seq<i128>,
    predecessor: Seq<usize>,
    slack: Seq<i128>,
    rank0: Seq<int>,
    rank: Seq<int>,
    used: Seq<bool>,
    step: int,
    current: int,
)
    requires
        reached(costs, u, v, holder, row, predecessor0, slack0, rank0, step, current),
        holder[current] < costs.len(),
        rank == rank0.update(current, step),
        marks_tree(used, rank),
        relaxed(
            costs,
            u,
            v,
            holder[current] as int,
            current,
            used,
            slack0,
            predecessor0,
            slack,
            predecessor,
        ),
    ensures
        tree_state(costs, u, v, holder, row, predecessor, rank, step + 1),
        slack_exact(costs, u, v, holder, row, predecessor, slack, rank),
        forall|j: int|
            0 <= j < used.len() && !used[j] ==> 0 <= #[trigger] slack[j] <= 8 * COST_BOUND,
{
    reveal(relaxed);
    let m = holder.len() as int;
    assert forall|k: int| in_tree(rank0, k) implies #[trigger] in_tree(rank, k) by {}
    assert forall|j: int| 0 <= j < m && #[trigger] rank[j] > 0 implies {
        &&& in_tree(rank, predecessor[j] as int)
        &&& predecessor[j] < rank.len() ==> rank[predecessor[j] as int] < rank[j]
        &&& reduced(costs, u, v, row_at(holder, row, predecessor[j] as int), j) == 0
    } by {
        assert(used[j]);
        assert(predecessor[j] == predecessor0[j]);
        if j == current {
            assert(rank0[j] == 0);
            assert(slack0[j] == 0);
            assert(in_tree(rank0, predecessor0[j] as int));
        } else {
            assert(rank0[j] > 0);
            assert(in_tree(rank0, predecessor0[j] as int));
        }
        if predecessor0[j] < m {
            assert(rank0[predecessor0[j] as int] > 0);
            assert(predecessor0[j] != current);
        }
    }
    assert(tree_edges(costs, u, v, holder, row, predecessor, rank));
    assert forall|j: int| 0 <= j < m implies 0 <= #[trigger] rank[j] && (rank[j] > 0 ==> rank[j]
        < step + 1 && holder[j] < costs.len()) by {
        assert(rank0[j] >= 0);
    }
    assert forall|j: int|
        #![trigger slack[j]]
        #![trigger predecessor[j]]
        0 <= j < m && rank[j] == 0 implies {
        &&& in_tree(rank, predecessor[j] as int)
        &&& slack[j] == reduced(costs, u, v, row_at(holder, row, predecessor[j] as int), j)
        &&& 0 <= slack[j] <= 8 * COST_BOUND
    } by {
        assert(!used[j]);
        assert(rank0[j] == 0);
        assert(in_tree(rank0, predecessor0[j] as int));
        assert(slack0[j] == reduced(
            costs,
            u,
            v,
            row_at(holder, row, predecessor0[j] as int),
            j,
        ));
        assert(in_tree(rank, current));
        assert(row_at(holder, row, current) == holder[current]);
        let i = row_at(holder, row, predecessor[j] as int);
        assert(in_tree(rank, predecessor[j] as int));
        assert(0 <= i < row + 1) by {
            if predecessor[j] < m {
                assert(rank[predecessor[j] as int] > 0);
                assert(holder[predecessor[j] as int] < costs.len());
            }
        }
        assert(reduced(costs, u, v, i, j) >= 0);
        assert(-COST_BOUND <= u[i] <= COST_BOUND);
        assert(-2 * COST_BOUND <= v[j] <= 0);
    }
    assert forall|j: int, k: int| 0 <= j < m && rank[j] == 0 && in_tree(rank, k) implies slack[j]
        <= #[trigger] reduced(costs, u, v, row_at(holder, row, k), j) by {
        assert(!used[j]);
        assert(rank0[j] == 0);
        if k != current {
            assert(in_tree(rank0, k)) by {
                if k < m {
                    assert(rank[k] == rank0[k]);
                }
            }
            assert(slack0[j] <= reduced(costs, u, v, row_at(holder, row, k), j));
        }
        assert(slack[j] <= slack0[j]);
    }
}

/// The columns whose rank is positive.
spec fn tree_columns(rank: Seq<int>) -> Set<int> {
    vstd::set_lib::set_int_range(0, rank.len() as int).filter(|j: int| rank[j] > 0)
}

proof fn lemma_tree_size(rank: Seq<int>)
    ensures
        tree_columns(rank).len() <= rank.len(),
{
    let all = vstd::set_lib::set_int_range(0, rank.len() as int);
    vstd::set_lib::lemma_int_range(0, rank.len() as int);
    vstd::set_lib::lemma_len_subset(tree_columns(rank), all);
}

/// A tree that takes in one more column has one column more.
proof fn lemma_tree_grows(rank: Seq<int>, current: int, step: int)
    requires
        0 <= current < rank.len(),
        rank[current] == 0,
        step > 0,
    ensures
        tree_columns(rank).len() < tree_columns(rank.update(current, step)).len(),
{
    vstd::set_lib::lemma_int_range(0, rank.len() as int);
    let grown = rank.update(current, step);
    assert(tree_columns(grown) =~= tree_columns(rank).insert(current));
}

/// After `step` steps the search from `start` is in state `now`, and none of
/// the steps before the last has reached a column without a holder.
#[verifier::opaque]
spec fn on_course(
    start: Search,
    costs: Seq<Seq<i64>>,
    holder: Seq<usize>,
    row: int,
    step: int,
    now: Search,
) -> bool {
    &&& step >= 0
    &&& start.after(costs, holder, row, step as nat) == now
    &&& forall|k: nat|
        0 < k < step ==> holder[(#[trigger] start.after(costs, holder, row, k)).current as int]
            != costs.len()
}

/// A step of the search is the step of the procedure.
proof fn lemma_step(
    start: Search,
    step: int,
    search: Search,
    costs: Seq<Seq<i64>>,
    holder: Seq<usize>,
    row: int,
    used: Seq<bool>,
    slack: Seq<i128>,
    predecessor: Seq<usize>,
    next: usize,
    row_potential: Seq<i128>,
    column_potential: Seq<i128>,
    lowered: Seq<i128>,
)
    requires
        on_course(start, costs, holder, row, step, search),
        step > 0 ==> holder[search.current as int] != costs.len(),
        search.slack.len() == search.used.len(),
        search.predecessor.len() == search.used.len(),
        search.column_potential.len() == search.used.len(),
        holder.len() == search.used.len(),
        search.current <= search.used.len(),
        used == search.joined(),
        relaxed(
            costs,
            search.row_potential,
            search.column_potential,
            search.current_row(holder, row),
            search.current as int,
            used,
            search.slack,
            search.predecessor,
            slack,
            predecessor,
        ),
        is_nearest(slack, used, next as int),
        0 <= row < row_potential.len(),
        shifted(
            holder,
            row,
            used,
            slack[next as int] as int,
            search.row_potential,
            search.column_potential,
            slack,
            row_potential,
            column_potential,
            lowered,
        ),
    ensures
        on_course(
            start,
            costs,
            holder,
            row,
            step + 1,
            Search {
                row_potential,
                column_potential,
                slack: lowered,
                predecessor,
                used,
                current: next,
            },
        ),
{
    reveal(on_course);
    reveal(relaxed);
    reveal(shifted);
    let delta = slack[next as int] as int;
    let after = search.next(costs, holder, row);
    assert(search.relaxed_slack(costs, holder, row) =~= slack);
    assert(search.relaxed_predecessor(costs, holder, row) =~= predecessor);
    lemma_nearest(slack, used, next as int);
    assert forall|i: int| 0 <= i < row_potential.len() implies #[trigger] after.row_potential[i]
        == row_potential[i] by {
        if row_in_tree(holder, row, used, i) {
            if i != row {
                let j = choose|j: int|
                    0 <= j < used.len() && #[trigger] used[j] && holder[j] == i;
                assert(row_potential[holder[j] as int] == search.row_potential[holder[j] as int]
                    + delta);
            }
        } else {
            assert(row_potential[i] == search.row_potential[i]);
        }
    }
    assert(after.row_potential =~= row_potential);
    assert(after.column_potential =~= column_potential);
    assert(after.slack =~= lowered);
    assert(after =~= (Search {
        row_potential,
        column_potential,
        slack: lowered,
        predecessor,
        used,
        current: next,
    }));
}

/// The column that was reached last joins the tree.
proof fn lemma_path_found(
    costs: Seq<Seq<i64>>,
    u: Seq<i128>,
    v: Seq<i128>,
    holder: Seq<usize>,
    row: int,
    predecessor: Seq<usize>,
    slack: Seq<i128>,
    rank: Seq<int>,
    step: int,
    current: int,
)
    requires
        reached(costs, u, v, holder, row, predecessor, slack, rank, step, current),
    ensures
        tree_edges(costs, u, v, holder, row, predecessor, rank.update(current, step)),
        forall|j: int|
            0 <= j < rank.len() && #[trigger] rank.update(current, step)[j] > 0 && j != current
                ==> holder[j] < costs.len(),
{
    let ended = rank.update(current, step);
    assert forall|j: int| 0 <= j < ended.len() && #[trigger] ended[j] > 0 implies {
        &&& in_tree(ended, predecessor[j] as int)
        &&& predecessor[j] < ended.len() ==> ended[predecessor[j] as int] < ended[j]
        &&& reduced(costs, u, v, row_at(holder, row, predecessor[j] as int), j) == 0
    } by {
        if j == current {
            assert(rank[j] == 0);
            assert(slack[j] == 0);
        } else {
            assert(rank[j] > 0);
        }
        assert(in_tree(rank, predecessor[j] as int));
        if predecessor[j] < ended.len() {
            assert(rank[predecessor[j] as int] > 0);
            assert(predecessor[j] != current);
        }
    }
}

/// Some column outside the tree is the nearest.
proof fn lemma_nearest_exists(slack: Seq<i128>, used: Seq<bool>, free: int)
    requires
        0 <= free < used.len(),
        !used[free],
    ensures
        is_nearest(slack, used, nearest(slack, used)),
{
    let j = lemma_nearest_below(slack, used, used.len());
    assert(is_nearest(slack, used, j));
}

/// The nearest of the first `n` columns, if one of them is outside the tree.
proof fn lemma_nearest_below(slack: Seq<i128>, used: Seq<bool>, n: nat) -> (j: int)
    requires
        n <= used.len(),
    ensures
        j == n ==> forall|k: int| 0 <= k < n ==> #[trigger] used[k],
        j != n ==> {
            &&& 0 <= j < n
            &&& !used[j]
            &&& forall|k: int| 0 <= k < n && !used[k] ==> slack[j] <= #[trigger] slack[k]
            &&& forall|k: int| 0 <= k < j && !used[k] ==> slack[j] < #[trigger] slack[k]
        },
    decreases n,
{
    if n == 0 {
        0
    } else {
        let last = n - 1;
        let j = lemma_nearest_below(slack, used, last as nat);
        if used[last] {
            if j == last {
                n as int
            } else {
                j
            }
        } else if j == last || slack[last] < slack[j] {
            last
        } else {
            j
        }
    }
}

/// The state of the search after `step` steps.
#[verifier::opaque]
spec fn searching(
    costs: Seq<Seq<i64>>,
    holder: Seq<usize>,
    row: int,
    now: Search,
    rank: Seq<int>,
    step: int,
) -> bool {
    &&& marks_tree(now.used, rank)
    &&& rank.len() == holder.len()
    &&& step >= 0
    &&& now.current <= rank.len()
    &&& step == 0 ==> now.current == rank.len() && rooted(
        costs,
        now.row_potential,
        now.column_potential,
        holder,
        row,
        now.predecessor,
        now.slack,
        rank,
    )
    &&& step > 0 ==> reached(
        costs,
        now.row_potential,
        now.column_potential,
        holder,
        row,
        now.predecessor,
        now.slack,
        rank,
        step,
        now.current as int,
    )
}

/// Looking from the current row relaxes slack and predecessors.
proof fn lemma_next_relaxes(
    costs: Seq<Seq<i64>>,
    holder: Seq<usize>,
    row: int,
    now: Search,
    rank: Seq<int>,
    step: int,
)
    requires
        searching(costs, holder, row, now, rank, step),
        step > 0 ==> holder[now.current as int] < costs.len(),
    ensures
        relaxed(
            costs,
            now.row_potential,
            now.column_potential,
            now.current_row(holder, row),
            now.current as int,
            now.joined(),
            now.slack,
            now.predecessor,
            now.relaxed_slack(costs, holder, row),
            now.relaxed_predecessor(costs, holder, row),
        ),
{
    reveal(relaxed);
    reveal(searching);
    let i = now.current_row(holder, row);
    let u = now.row_potential;
    let v = now.column_potential;
    assert(0 <= i < costs.len());
    assert forall|j: int| 0 <= j < holder.len() implies i128::MIN <= #[trigger] reduced(
        costs,
        u,
        v,
        i,
        j,
    ) <= i128::MAX by {
        assert(-COST_BOUND <= u[i] <= COST_BOUND);
        assert(-2 * COST_BOUND <= v[j] <= 0);
    }
}

/// Moving the least slack into the potentials of the tree shifts them by it.
proof fn lemma_next_shifts(
    costs: Seq<Seq<i64>>,
    holder: Seq<usize>,
    row: int,
    now: Search,
    rank: Seq<int>,
)
    requires
        now.slack.len() == now.used.len(),
        now.used.len() == holder.len(),
        now.column_potential.len() == holder.len(),
        0 <= row < now.row_potential.len(),
        bounded(now.row_potential, now.column_potential),
        marks_tree(now.joined(), rank),
        forall|j: int|
            0 <= j < rank.len() && #[trigger] rank[j] > 0 ==> holder[j] < now.row_potential.len(),
        forall|j: int|
            0 <= j < now.used.len() && !now.joined()[j] ==> -8 * COST_BOUND
                <= #[trigger] now.relaxed_slack(costs, holder, row)[j] <= 8 * COST_BOUND,
        is_nearest(
            now.relaxed_slack(costs, holder, row),
            now.joined(),
            nearest(now.relaxed_slack(costs, holder, row), now.joined()),
        ),
    ensures
        ({
            let slack = now.relaxed_slack(costs, holder, row);
            let after = now.next(costs, holder, row);
            shifted(
                holder,
                row,
                now.joined(),
                slack[nearest(slack, now.joined())] as int,
                now.row_potential,
                now.column_potential,
                slack,
                after.row_potential,
                after.column_potential,
                after.slack,
            )
        }),
{
    reveal(shifted);
    let used = now.joined();
    let slack = now.relaxed_slack(costs, holder, row);
    let after = now.next(costs, holder, row);
    let delta = slack[nearest(slack, used)] as int;
    assert(-8 * COST_BOUND <= delta <= 8 * COST_BOUND);
    assert forall|i: int| 0 <= i < now.row_potential.len() implies #[trigger] after.row_potential[i]
        == now.row_potential[i] + if row_in_tree(holder, row, used, i) {
        delta
    } else {
        0
    } by {
        assert(-COST_BOUND <= now.row_potential[i] <= COST_BOUND);
    }
    assert(row_in_tree(holder, row, used, row));
    assert forall|j: int| 0 <= j < used.len() && #[trigger] used[j] implies
        after.row_potential[holder[j] as int] == now.row_potential[holder[j] as int] + delta by {
        assert(rank[j] > 0);
        assert(row_in_tree(holder, row, used, holder[j] as int));
    }
    assert forall|j: int| 0 <= j < used.len() implies #[trigger] after.column_potential[j]
        == if used[j] {
        now.column_potential[j] - delta
    } else {
        now.column_potential[j] as int
    } by {
        assert(-2 * COST_BOUND <= now.column_potential[j] <= 0);
    }
    assert forall|j: int| 0 <= j < used.len() implies #[trigger] after.slack[j] == if used[j] {
        slack[j] as int
    } else {
        slack[j] - delta
    } by {
        if !used[j] {
            assert(-8 * COST_BOUND <= slack[j] <= 8 * COST_BOUND);
        }
    }
}

/// Columns `p` and `q` cost the same in every row.
pub open spec fn same_columns(costs: Seq<Seq<i64>>, p: int, q: int) -> bool {
    forall|i: int| 0 <= i < costs.len() ==> (#[trigger] costs[i])[p] == costs[i][q]
}

/// Of two columns without a holder that cost the same, the first is reached.
proof fn lemma_first_is_nearer(
    costs: Seq<Seq<i64>>,
    u: Seq<i128>,
    v: Seq<i128>,
    holder: Seq<usize>,
    row: int,
    predecessor: Seq<usize>,
    slack: Seq<i128>,
    rank: Seq<int>,
    step: int,
    used: Seq<bool>,
    p: int,
    q: int,
)
    requires
        tree_state(costs, u, v, holder, row, predecessor, rank, step),
        slack_exact(costs, u, v, holder, row, predecessor, slack, rank),
        marks_tree(used, rank),
        0 <= p < q < holder.len(),
        same_columns(costs, p, q),
        holder[p] == costs.len(),
        holder[q] == costs.len(),
    ensures
        !is_nearest(slack, used, q),
{
    assert(rank[p] == 0 && rank[q] == 0);
    assert(!used[p] && !used[q]);
    assert(v[p] == 0 && v[q] == 0);
    let k = predecessor[q] as int;
    assert(slack[q] == reduced(costs, u, v, row_at(holder, row, k), q));
    assert(in_tree(rank, k));
    let i = row_at(holder, row, k);
    assert(0 <= i < costs.len()) by {
        if k < holder.len() {
            assert(rank[k] > 0);
        }
    }
    assert(costs[i][p] == costs[i][q]);
    assert(slack[p] <= reduced(costs, u, v, row_at(holder, row, k), p));
}

/// The next step of the procedure keeps the state of the search and takes the
/// current column into the tree.
proof fn lemma_next(
    costs: Seq<Seq<i64>>,
    holder: Seq<usize>,
    row: int,
    now: Search,
    rank: Seq<int>,
    step: int,
    free: int,
) -> (grown: Seq<int>)
    requires
        searching(costs, holder, row, now, rank, step),
        step > 0 ==> holder[now.current as int] < costs.len(),
        width(costs) <= usize::MAX,
        0 <= free < holder.len(),
        holder[free] == costs.len(),
    ensures
        searching(costs, holder, row, now.next(costs, holder, row), grown, step + 1),
        step == 0 ==> grown == rank,
        step > 0 ==> tree_columns(rank).len() < tree_columns(grown).len(),
        grown.len() == holder.len(),
        holder[now.next(costs, holder, row).current as int] <= costs.len(),
        forall|p: int, q: int|
            0 <= p < q < holder.len() && #[trigger] same_columns(costs, p, q) && holder[p]
                == costs.len() && holder[q] == costs.len() ==> now.next(
                costs,
                holder,
                row,
            ).current != q,
{
    reveal(searching);
    let u = now.row_potential;
    let v = now.column_potential;
    let used = now.joined();
    let slack = now.relaxed_slack(costs, holder, row);
    let predecessor = now.relaxed_predecessor(costs, holder, row);
    let after = now.next(costs, holder, row);
    let grown = if step == 0 {
        rank
    } else {
        rank.update(now.current as int, step)
    };
    assert(marks_tree(used, grown));
    lemma_next_relaxes(costs, holder, row, now, rank, step);
    if step == 0 {
        lemma_relax_from_root(
            costs,
            u,
            v,
            holder,
            row,
            now.predecessor,
            now.slack,
            predecessor,
            slack,
            grown,
            used,
        );
    } else {
        lemma_tree_grows(rank, now.current as int, step);
        lemma_relax_from_column(
            costs,
            u,
            v,
            holder,
            row,
            now.predecessor,
            now.slack,
            predecessor,
            slack,
            rank,
            grown,
            used,
            step,
            now.current as int,
        );
    }
    assert(!used[free]) by {
        assert(grown[free] <= 0);
    }
    lemma_nearest_exists(slack, used, free);
    lemma_next_shifts(costs, holder, row, now, grown);
    let next = nearest(slack, used);
    assert forall|p: int, q: int|
        0 <= p < q < holder.len() && #[trigger] same_columns(costs, p, q) && holder[p]
            == costs.len() && holder[q] == costs.len() implies next != q by {
        lemma_first_is_nearer(
            costs,
            u,
            v,
            holder,
            row,
            predecessor,
            slack,
            grown,
            step + 1,
            used,
            p,
            q,
        );
    }
    if step > 0 {
        assert(slack[next] >= 0);
    }
    lemma_shift(
        costs,
        u,
        v,
        slack,
        after.row_potential,
        after.column_potential,
        after.slack,
        holder,
        row,
        predecessor,
        grown,
        used,
        step + 1,
        next,
        free,
    );
    assert(holder[next] < row || holder[next] == costs.len());
    grown
}

/// The search ends, in a state in which the path to a free column is known.
proof fn lemma_search_terminates(
    start: Search,
    costs: Seq<Seq<i64>>,
    holder: Seq<usize>,
    row: int,
    now: Search,
    rank: Seq<int>,
    step: int,
    free: int,
) -> (path: (nat, Seq<int>))
    requires
        step >= 0,
        on_course(start, costs, holder, row, step, now),
        searching(costs, holder, row, now, rank, step),
        step > 0 ==> holder[now.current as int] < costs.len(),
        width(costs) <= usize::MAX,
        0 <= free < holder.len(),
        holder[free] == costs.len(),
    ensures
        start.ends_after(costs, holder, row, path.0),
        searching(
            costs,
            holder,
            row,
            start.after(costs, holder, row, path.0),
            path.1,
            path.0 as int,
        ),
        forall|p: int, q: int|
            0 <= p < q < holder.len() && #[trigger] same_columns(costs, p, q) && holder[p]
                == costs.len() && holder[q] == costs.len() ==> start.after(
                costs,
                holder,
                row,
                path.0,
            ).current != q,
    decreases (if step == 0 { 1int } else { 0 }) + holder.len() - tree_columns(rank).len(),
{
    let after = now.next(costs, holder, row);
    let grown = lemma_next(costs, holder, row, now, rank, step, free);
    assert(on_course(start, costs, holder, row, step + 1, after)) by {
        reveal(on_course);
    }
    lemma_tree_size(grown);
    if holder[after.current as int] == costs.len() {
        reveal(on_course);
        ((step + 1) as nat, grown)
    } else {
        lemma_search_terminates(start, costs, holder, row, after, grown, step + 1, free)
    }
}

/// Grows the tree of row `row` until it reaches a column that no row holds.
fn find_path(
    costs: &[Vec<i64>],
    row: usize,
    matched_row: &Vec<usize>,
    row_potential: &mut Vec<i128>,
    column_potential: &mut Vec<i128>,
    predecessor: &mut Vec<usize>,
) -> (path: (usize, Ghost<Seq<int>>))
    requires
        settled(
            matrix(costs@),
            old(row_potential)@,
            old(column_potential)@,
            matched_row@,
            row as int,
        ),
        row < costs.len(),
        old(predecessor).len() == matched_row.len(),
    ensures
        shaped(matrix(costs@), final(row_potential)@, final(column_potential)@, matched_row@),
        bounded(final(row_potential)@, final(column_potential)@),
        feasible(matrix(costs@), final(row_potential)@, final(column_potential)@, row + 1),
        tight(matrix(costs@), final(row_potential)@, final(column_potential)@, matched_row@),
        forall|i: int| row < i < costs.len() ==> #[trigger] final(row_potential)@[i] == 0,
        path.0 < matched_row.len(),
        matched_row[path.0 as int] == costs.len(),
        tree_edges(
            matrix(costs@),
            final(row_potential)@,
            final(column_potential)@,
            matched_row@,
            row as int,
            final(predecessor)@,
            path.1@,
        ),
        path.1@[path.0 as int] > 0,
        forall|j: int|
            0 <= j < path.1@.len() && #[trigger] path.1@[j] > 0 && j != path.0 ==> matched_row[j]
                < costs.len(),
        ({
            let end = (Progress {
                row_potential: old(row_potential)@,
                column_potential: old(column_potential)@,
                predecessor: old(predecessor)@,
                holder: matched_row@,
            }).search().end(matrix(costs@), matched_row@, row as int);
            &&& end.row_potential == final(row_potential)@
            &&& end.column_potential == final(column_potential)@
            &&& end.predecessor == final(predecessor)@
            &&& end.current == path.0
        }),
{
    let ghost c = matrix(costs@);
    let columns: usize = matched_row.len();
    let ghost free = lemma_free_column(matched_row@, c.len() as int, row as int);
    let mut used: Vec<bool> = vec![false; columns];
    let mut minimum_slack: Vec<i128> = vec![i128::MAX; columns];
    let mut current: usize = columns;
    let ghost mut rank: Seq<int> = Seq::new(columns as nat, |j: int| 0int);
    let ghost mut step: int = 0;
    let ghost start = (Progress {
        row_potential: row_potential@,
        column_potential: column_potential@,
        predecessor: predecessor@,
        holder: matched_row@,
    }).search();
    assert(start.slack =~= minimum_slack@);
    assert(start.used =~= used@);
    assert(on_course(start, c, matched_row@, row as int, step, start)) by {
        reveal(on_course);
    }
    loop
        invariant_except_break
            step > 0 ==> matched_row[current as int] < c.len(),
        invariant
            c == matrix(costs@),
            row < costs.len(),
            columns == matched_row.len(),
            0 <= free < columns,
            matched_row[free] == c.len(),
            marks_tree(used@, rank),
            rank.len() == columns,
            step >= 0,
            current <= columns,
            on_course(
                start,
                c,
                matched_row@,
                row as int,
                step,
                Search {
                    row_potential: row_potential@,
                    column_potential: column_potential@,
                    slack: minimum_slack@,
                    predecessor: predecessor@,
                    used: used@,
                    current,
                },
            ),
            step == 0 ==> current == columns && rooted(
                c,
                row_potential@,
                column_potential@,
                matched_row@,
                row as int,
                predecessor@,
                minimum_slack@,
                rank,
            ),
            step > 0 ==> reached(
                c,
                row_potential@,
                column_potential@,
                matched_row@,
                row as int,
                predecessor@,
                minimum_slack@,
                rank,
                step,
                current as int,
            ),
        ensures
            step > 0,
            matched_row[current as int] == c.len(),
        decreases (if step == 0 { 1int } else { 0 }) + columns - tree_columns(rank).len(),
    {
        let ghost search = Search {
            row_potential: row_potential@,
            column_potential: column_potential@,
            slack: minimum_slack@,
            predecessor: predecessor@,
            used: used@,
            current,
        };
        let ghost rank0 = rank;
        let ghost slack0 = minimum_slack@;
        let ghost predecessor0 = predecessor@;
        let mut current_row: usize = row;
        if current != columns {
            used.set(current, true);
            current_row = matched_row[current];
            proof {
                rank = rank.update(current as int, step);
                lemma_tree_grows(rank0, current as int, step);
            }
        }
        assert(!used[free]) by {
            assert(rank[free] <= 0);
        }
        let (delta, next_column) = relax(
            costs,
            current_row,
            current,
            row_potential,
            column_potential,
            &used,
            &mut minimum_slack,
            predecessor,
            Ghost(free),
        );
        let ghost slack1 = minimum_slack@;
        let ghost u0 = row_potential@;
        let ghost v0 = column_potential@;
        proof {
            if step == 0 {
                lemma_relax_from_root(
                    c,
                    u0,
                    v0,
                    matched_row@,
                    row as int,
                    predecessor0,
                    slack0,
                    predecessor@,
                    slack1,
                    rank,
                    used@,
                );
            } else {
                lemma_relax_from_column(
                    c,
                    u0,
                    v0,
                    matched_row@,
                    row as int,
                    predecessor0,
                    slack0,
                    predecessor@,
                    slack1,
                    rank0,
                    rank,
                    used@,
                    step,
                    current as int,
                );
            }
            step = step + 1;
            lemma_tree_size(rank);
        }
        assert(slack1[next_column as int] == delta);
        shift(
            row,
            delta,
            &used,
            matched_row,
            row_potential,
            column_potential,
            &mut minimum_slack,
        );
        proof {
            lemma_shift(
                c,
                u0,
                v0,
                slack1,
                row_potential@,
                column_potential@,
                minimum_slack@,
                matched_row@,
                row as int,
                predecessor@,
                rank,
                used@,
                step,
                next_column as int,
                free,
            );
        }
        proof {
            lemma_step(
                start,
                step - 1,
                search,
                c,
                matched_row@,
                row as int,
                used@,
                slack1,
                predecessor@,
                next_column,
                row_potential@,
                column_potential@,
                minimum_slack@,
            );
        }
        current = next_column;
        if matched_row[current] == costs.len() {
            break;
        }
        assert(matched_row[current as int] < row);
    }
    let ghost ended = rank.update(current as int, step);
    proof {
        reveal(on_course);
        lemma_search_end(start, c, matched_row@, row as int, step as nat);
        lemma_path_found(
            c,
            row_potential@,
            column_potential@,
            matched_row@,
            row as int,
            predecessor@,
            minimum_slack@,
            rank,
            step,
            current as int,
        );
    }
    (current, Ghost(ended))
}

/// Row `i` holds a column other than `hole`.
spec fn held_outside(holder: Seq<usize>, hole: int, i: int) -> bool {
    exists|j: int| 0 <= j < holder.len() && j != hole && #[trigger] holder[j] == i
}

/// `holder` with column `hole` left out gives each of the first `rows` rows a
/// column at reduced cost 0, no column twice.
spec fn matches_rows_except(
    costs: Seq<Seq<i64>>,
    u: Seq<i128>,
    v: Seq<i128>,
    holder: Seq<usize>,
    rows: int,
    hole: int,
) -> bool {
    let n = costs.len();
    &&& forall|j: int|
        0 <= j < holder.len() && j != hole ==> #[trigger] holder[j] < rows || holder[j] == n
    &&& forall|j: int, k: int|
        0 <= j < k < holder.len() && j != hole && k != hole && #[trigger] holder[j] != n
            ==> holder[j] != #[trigger] holder[k]
    &&& forall|i: int| 0 <= i < rows ==> #[trigger] held_outside(holder, hole, i)
    &&& forall|j: int|
        0 <= j < holder.len() && j != hole && holder[j] < n ==> reduced(
            costs,
            u,
            v,
            #[trigger] holder[j] as int,
            j,
        ) == 0
    &&& forall|j: int|
        0 <= j < holder.len() && j != hole && holder[j] == n ==> #[trigger] v[j] == 0
}

/// Filling the hole from another held column moves the hole there.
proof fn lemma_move_hole(
    costs: Seq<Seq<i64>>,
    u: Seq<i128>,
    v: Seq<i128>,
    holder: Seq<usize>,
    rows: int,
    hole: int,
    previous: int,
)
    requires
        matches_rows_except(costs, u, v, holder, rows, hole),
        rows <= costs.len(),
        0 <= hole < holder.len(),
        0 <= previous < holder.len(),
        previous != hole,
        holder[previous] < costs.len(),
        reduced(costs, u, v, holder[previous] as int, hole) == 0,
    ensures
        matches_rows_except(
            costs,
            u,
            v,
            holder.update(hole, holder[previous]),
            rows,
            previous,
        ),
{
    let moved = holder.update(hole, holder[previous]);
    let n = costs.len();
    assert forall|j: int, k: int|
        0 <= j < k < moved.len() && j != previous && k != previous && #[trigger] moved[j]
            != n implies moved[j] != #[trigger] moved[k] by {
        let a = if j == hole {
            previous
        } else {
            j
        };
        let b = if k == hole {
            previous
        } else {
            k
        };
        assert(moved[j] == holder[a] && moved[k] == holder[b] && a != b);
        if a < b {
            assert(holder[a] != holder[b]);
        } else if holder[b] != n {
            assert(holder[b] != holder[a]);
        }
    }
    assert forall|i: int| 0 <= i < rows implies #[trigger] held_outside(moved, previous, i) by {
        assert(held_outside(holder, hole, i));
        let j = choose|j: int| 0 <= j < holder.len() && j != hole && #[trigger] holder[j] == i;
        if j == previous {
            assert(moved[hole] == i);
        } else {
            assert(moved[j] == i);
        }
    }
    assert forall|j: int| 0 <= j < moved.len() && j != previous implies #[trigger] moved[j] < rows
        || moved[j] == n by {
        if j == hole {
            assert(holder[previous] < rows || holder[previous] == n);
        } else {
            assert(moved[j] == holder[j]);
        }
    }
    assert forall|j: int| 0 <= j < moved.len() && j != previous && moved[j] < n implies reduced(
        costs,
        u,
        v,
        #[trigger] moved[j] as int,
        j,
    ) == 0 by {
        if j != hole {
            assert(moved[j] == holder[j]);
        }
    }
    assert forall|j: int| 0 <= j < moved.len() && j != previous && moved[j] == n implies
        #[trigger] v[j] == 0 by {
        if j != hole {
            assert(moved[j] == holder[j]);
        }
    }
}

/// Filling the hole with the new row matches one row more.
proof fn lemma_fill_hole(
    costs: Seq<Seq<i64>>,
    u: Seq<i128>,
    v: Seq<i128>,
    holder: Seq<usize>,
    row: usize,
    hole: int,
)
    requires
        matches_rows_except(costs, u, v, holder, row as int, hole),
        row < costs.len(),
        costs.len() <= usize::MAX,
        0 <= hole < holder.len(),
        reduced(costs, u, v, row as int, hole) == 0,
    ensures
        matches_rows(holder.update(hole, row), costs.len() as int, row + 1),
        tight(costs, u, v, holder.update(hole, row)),
{
    let filled = holder.update(hole, row);
    let n = costs.len();
    assert forall|j: int, k: int|
        0 <= j < k < filled.len() && #[trigger] filled[j] != n implies filled[j]
        != #[trigger] filled[k] by {
        if j == hole {
            assert(holder[k] < row || holder[k] == n);
        } else if k == hole {
            assert(holder[j] < row || holder[j] == n);
        } else {
            assert(holder[j] != holder[k]);
        }
    }
    assert forall|i: int| 0 <= i < row + 1 implies #[trigger] filled.contains(i as usize) by {
        if i == row {
            assert(filled[hole] == i as usize);
        } else {
            assert(held_outside(holder, hole, i));
            let j = choose|j: int| 0 <= j < holder.len() && j != hole && #[trigger] holder[j] == i;
            assert(filled[j] == i as usize);
        }
    }
    assert forall|j: int| 0 <= j < filled.len() implies #[trigger] filled[j] < row + 1 || filled[j]
        == n by {
        if j != hole {
            assert(filled[j] == holder[j]);
        }
    }
    assert forall|j: int| 0 <= j < filled.len() && filled[j] < n implies reduced(
        costs,
        u,
        v,
        #[trigger] filled[j] as int,
        j,
    ) == 0 by {
        if j != hole {
            assert(filled[j] == holder[j]);
        }
    }
    assert forall|j: int| 0 <= j < filled.len() && filled[j] == n implies #[trigger] v[j] == 0 by {
        if j != hole {
            assert(filled[j] == holder[j]);
        }
    }
}

/// `holder` is `before` with the rows of the path that ends in column `end`
/// moved on, as far as column `hole`.
spec fn moving(
    costs: Seq<Seq<i64>>,
    u: Seq<i128>,
    v: Seq<i128>,
    before: Seq<usize>,
    row: int,
    predecessor: Seq<usize>,
    rank: Seq<int>,
    end: usize,
    holder: Seq<usize>,
    hole: usize,
    steps: nat,
) -> bool {
    &&& holder.len() == before.len()
    &&& hole < before.len()
    &&& 0 < rank[hole as int] <= rank[end as int]
    &&& tree_edges(costs, u, v, before, row, predecessor, rank)
    &&& forall|j: int|
        0 <= j < rank.len() && #[trigger] rank[j] > 0 && j != end ==> before[j] < costs.len()
    &&& forall|j: int|
        0 <= j < before.len() && 0 < #[trigger] rank[j] < rank[hole as int] ==> holder[j]
            == before[j]
    &&& forall|j: int|
        0 <= j < before.len() && j != hole ==> (#[trigger] holder[j] == costs.len() <==> before[j]
            == costs.len() && j != end)
    &&& matches_rows_except(costs, u, v, holder, row, hole as int)
    &&& hole == hole_after(predecessor, end, steps)
    &&& holder == moved_on(before, predecessor, end, steps)
    &&& forall|k: nat|
        k < steps ==> predecessor[#[trigger] hole_after(predecessor, end, k) as int]
            != before.len()
}

/// Before the first row moves on, the hole is the free column at the end.
proof fn lemma_moving_starts(
    costs: Seq<Seq<i64>>,
    u: Seq<i128>,
    v: Seq<i128>,
    before: Seq<usize>,
    row: int,
    predecessor: Seq<usize>,
    rank: Seq<int>,
    end: usize,
)
    requires
        row < costs.len() <= usize::MAX,
        matches_rows(before, costs.len() as int, row),
        tight(costs, u, v, before),
        end < before.len(),
        before[end as int] == costs.len(),
        tree_edges(costs, u, v, before, row, predecessor, rank),
        rank[end as int] > 0,
        forall|j: int|
            0 <= j < rank.len() && #[trigger] rank[j] > 0 && j != end ==> before[j] < costs.len(),
    ensures
        moving(costs, u, v, before, row, predecessor, rank, end, before, end, 0),
{
    assert forall|i: int| 0 <= i < row implies #[trigger] held_outside(before, end as int, i) by {
        assert(before.contains(i as usize));
        let j = choose|j: int| 0 <= j < before.len() && before[j] == i as usize;
        assert(before[j] == i && j != end);
    }
}

/// The next row of the path moves on.
proof fn lemma_moving_on(
    costs: Seq<Seq<i64>>,
    u: Seq<i128>,
    v: Seq<i128>,
    before: Seq<usize>,
    row: int,
    predecessor: Seq<usize>,
    rank: Seq<int>,
    end: usize,
    holder: Seq<usize>,
    hole: usize,
    steps: nat,
)
    requires
        moving(costs, u, v, before, row, predecessor, rank, end, holder, hole, steps),
        row < costs.len(),
        predecessor[hole as int] != before.len(),
    ensures
        ({
            let previous = predecessor[hole as int];
            &&& rank[previous as int] < rank[hole as int]
            &&& moving(
                costs,
                u,
                v,
                before,
                row,
                predecessor,
                rank,
                end,
                holder.update(hole as int, holder[previous as int]),
                previous,
                steps + 1,
            )
        }),
{
    let previous = predecessor[hole as int];
    assert(in_tree(rank, previous as int));
    assert(rank[previous as int] > 0);
    assert(holder[previous as int] == before[previous as int]);
    lemma_move_hole(costs, u, v, holder, row, hole as int, previous as int);
}

/// The rows of the path move on until the hole is its first column, which the
/// new row takes.
proof fn lemma_moving_ends(
    costs: Seq<Seq<i64>>,
    u: Seq<i128>,
    v: Seq<i128>,
    before: Seq<usize>,
    row: usize,
    predecessor: Seq<usize>,
    rank: Seq<int>,
    end: usize,
    holder: Seq<usize>,
    hole: usize,
    steps: nat,
)
    requires
        moving(costs, u, v, before, row as int, predecessor, rank, end, holder, hole, steps),
        row < costs.len() <= usize::MAX,
    ensures
        ({
            let after = augmented(before, predecessor, row, end);
            &&& after.len() == before.len()
            &&& matches_rows(after, costs.len() as int, row + 1)
            &&& tight(costs, u, v, after)
            &&& forall|j: int|
                0 <= j < before.len() ==> (#[trigger] after[j] == costs.len() <==> before[j]
                    == costs.len() && j != end)
        }),
    decreases rank[hole as int],
{
    if predecessor[hole as int] == before.len() {
        lemma_augmented(before, predecessor, row, end, steps);
        lemma_fill_hole(costs, u, v, holder, row, hole as int);
    } else {
        let previous = predecessor[hole as int];
        lemma_moving_on(
            costs,
            u,
            v,
            before,
            row as int,
            predecessor,
            rank,
            end,
            holder,
            hole,
            steps,
        );
        lemma_moving_ends(
            costs,
            u,
            v,
            before,
            row,
            predecessor,
            rank,
            end,
            holder.update(hole as int, holder[previous as int]),
            previous,
            steps + 1,
        );
    }
}

/// Shifts the rows along the path that ends in the free column `end`, and puts
/// row `row` at its start.
fn augment(
    matched_row: &mut Vec<usize>,
    predecessor: &Vec<usize>,
    row: usize,
    end: usize,
    Ghost(costs): Ghost<Seq<Seq<i64>>>,
    Ghost(u): Ghost<Seq<i128>>,
    Ghost(v): Ghost<Seq<i128>>,
    Ghost(rank): Ghost<Seq<int>>,
)
    requires
        shaped(costs, u, v, old(matched_row)@),
        costs.len() <= usize::MAX,
        row < costs.len(),
        matches_rows(old(matched_row)@, costs.len() as int, row as int),
        tight(costs, u, v, old(matched_row)@),
        end < old(matched_row).len(),
        old(matched_row)@[end as int] == costs.len(),
        tree_edges(costs, u, v, old(matched_row)@, row as int, predecessor@, rank),
        rank[end as int] > 0,
        forall|j: int|
            0 <= j < rank.len() && #[trigger] rank[j] > 0 && j != end ==> old(matched_row)@[j]
                < costs.len(),
    ensures
        final(matched_row).len() == old(matched_row).len(),
        matches_rows(final(matched_row)@, costs.len() as int, row + 1),
        tight(costs, u, v, final(matched_row)@),
        final(matched_row)@ == augmented(old(matched_row)@, predecessor@, row, end),
{
    let ghost holder0 = matched_row@;
    let columns: usize = matched_row.len();
    let mut hole: usize = end;
    let ghost mut steps: nat = 0;
    proof {
        lemma_moving_starts(costs, u, v, holder0, row as int, predecessor@, rank, end);
    }
    while predecessor[hole] != columns
        invariant
            columns == holder0.len(),
            predecessor.len() == columns,
            row < costs.len(),
            moving(
                costs,
                u,
                v,
                holder0,
                row as int,
                predecessor@,
                rank,
                end,
                matched_row@,
                hole,
                steps,
            ),
        decreases rank[hole as int],
    {
        let previous: usize = predecessor[hole];
        proof {
            lemma_moving_on(
                costs,
                u,
                v,
                holder0,
                row as int,
                predecessor@,
                rank,
                end,
                matched_row@,
                hole,
                steps,
            );
            steps = steps + 1;
        }
        matched_row.set(hole, matched_row[previous]);
        hole = previous;
    }
    proof {
        lemma_augmented(holder0, predecessor@, row, end, steps);
        lemma_moving_ends(
            costs,
            u,
            v,
            holder0,
            row,
            predecessor@,
            rank,
            end,
            matched_row@,
            hole,
            steps,
        );
    }
    matched_row.set(hole, row);
}

/// After the first `rows` rows the procedure has matched them, at the least
/// total cost.
proof fn lemma_progress(costs: Seq<Seq<i64>>, rows: nat)
    requires
        rectangular(costs),
        0 < costs.len() <= width(costs) <= usize::MAX,
        rows <= costs.len(),
    ensures
        ({
            let now = progress(costs, rows);
            &&& settled(
                costs,
                now.row_potential,
                now.column_potential,
                now.holder,
                rows as int,
            )
            &&& now.predecessor.len() == now.holder.len()
            &&& forall|p: int, q: int|
                0 <= p < q < now.holder.len() && #[trigger] same_columns(costs, p, q)
                    && now.holder[q] != costs.len() ==> now.holder[p] != costs.len()
        }),
    decreases rows,
{
    if rows > 0 {
        let row = rows - 1;
        let before = progress(costs, row as nat);
        lemma_progress(costs, row as nat);
        let holder = before.holder;
        let start = before.search();
        let rank = Seq::new(holder.len(), |j: int| 0int);
        let free = lemma_free_column(holder, costs.len() as int, row);
        assert(on_course(start, costs, holder, row, 0, start)) by {
            reveal(on_course);
        }
        reveal(searching);
        let (steps, found) = lemma_search_terminates(
            start,
            costs,
            holder,
            row,
            start,
            rank,
            0,
            free,
        );
        lemma_search_end(start, costs, holder, row, steps);
        let end = start.end(costs, holder, row);
        let u = end.row_potential;
        let v = end.column_potential;
        let ended = found.update(end.current as int, steps as int);
        lemma_path_found(
            costs,
            u,
            v,
            holder,
            row,
            end.predecessor,
            end.slack,
            found,
            steps as int,
            end.current as int,
        );
        lemma_moving_starts(costs, u, v, holder, row, end.predecessor, ended, end.current);
        lemma_moving_ends(
            costs,
            u,
            v,
            holder,
            row as usize,
            end.predecessor,
            ended,
            end.current,
            holder,
            end.current,
            0,
        );
    }
}

/// Of two columns of a wide matrix that cost the same in every row, the second
/// is assigned only if the first is.
pub proof fn lemma_first_of_same_columns(costs: Seq<Seq<i64>>, p: usize, q: usize)
    requires
        rectangular(costs),
        0 < costs.len() <= width(costs) <= usize::MAX,
        p < q < width(costs),
        forall|i: int|
            0 <= i < costs.len() ==> (#[trigger] costs[i])[p as int] == costs[i][q as int],
    ensures
        (exists|k: int|
            0 <= k < wide_assignment(costs).len() && (#[trigger] wide_assignment(costs)[k]).1 == q)
            ==> exists|k: int|
            0 <= k < wide_assignment(costs).len() && (#[trigger] wide_assignment(costs)[k]).1 == p,
{
    let pairs = wide_assignment(costs);
    let holder = progress(costs, costs.len()).holder;
    lemma_progress(costs, costs.len());
    assert(same_columns(costs, p as int, q as int));
    assert forall|i: int| 0 <= i < costs.len() implies holder[(
    #[trigger] pairs[i]).1 as int] == i by {
        assert(holder.contains(i as usize));
        let j = holder.index_of(i as usize);
        assert(0 <= j < holder.len() && holder[j] == i as usize);
    }
    if exists|k: int| 0 <= k < pairs.len() && (#[trigger] pairs[k]).1 == q {
        let k = choose|k: int| 0 <= k < pairs.len() && (#[trigger] pairs[k]).1 == q;
        assert(holder[q as int] == k);
        let i = holder[p as int] as int;
        assert(holder[p as int] != costs.len());
        assert(i < costs.len());
        let j = pairs[i].1 as int;
        assert(holder[j] == i);
        assert(j == p) by {
            if j < p {
                assert(holder[j] != holder[p as int]);
            } else if p < j {
                assert(holder[p as int] != holder[j]);
            }
        }
    }
}

/// The assignment of a wide matrix that the algorithm finds is cheapest, and
/// names for each row in turn the column that it holds.
pub proof fn lemma_wide_assignment(costs: Seq<Seq<i64>>)
    requires
        rectangular(costs),
        0 < costs.len() <= width(costs) <= usize::MAX,
    ensures
        is_minimum_assignment(costs, wide_assignment(costs)),
        ascending_rows(wide_assignment(costs)),
{
    let rows = costs.len() as int;
    let columns = width(costs) as int;
    let now = progress(costs, costs.len());
    let u = now.row_potential;
    let v = now.column_potential;
    let holder = now.holder;
    let pairs = wide_assignment(costs);
    lemma_progress(costs, costs.len());
    assert forall|i: int| 0 <= i < rows implies (#[trigger] pairs[i]).0 == i && pairs[i].1 < columns
        && holder[pairs[i].1 as int] == i by {
        assert(holder.contains(i as usize));
        let j = holder.index_of(i as usize);
        assert(0 <= j < columns && holder[j] == i as usize);
    }
    assert forall|k: int, l: int| 0 <= k < l < pairs.len() implies (#[trigger] pairs[k]).0 != (
    #[trigger] pairs[l]).0 && pairs[k].1 != pairs[l].1 by {
        assert(holder[pairs[k].1 as int] == k);
        assert(holder[pairs[l].1 as int] == l);
    }
    assert(is_assignment(rows as nat, columns as nat, pairs));
    assert forall|k: int| 0 <= k < pairs.len() implies reduced(
        costs,
        u,
        v,
        (#[trigger] pairs[k]).0 as int,
        pairs[k].1 as int,
    ) == 0 by {
        let j = pairs[k].1 as int;
        assert(holder[j] == k);
        assert(reduced(costs, u, v, holder[j] as int, j) == 0);
    }
    assert forall|j: int| 0 <= j < columns && (forall|k: int|
        0 <= k < pairs.len() ==> (#[trigger] pairs[k]).1 != j) implies #[trigger] v[j] == 0 by {
        if holder[j] < rows {
            let i = holder[j] as int;
            let k = pairs[i].1 as int;
            assert(holder[k] == i);
            if j < k {
                assert(holder[j] != holder[k]);
            } else if k < j {
                assert(holder[k] != holder[j]);
            }
        }
        assert(holder[j] == rows);
    }
    lemma_potentials_certify(costs, u, v, pairs);
}

/// A minimum-cost assignment of all rows of a matrix that is at least as wide
/// as it is tall, in the order of the rows.
pub fn hungarian_rows_le_columns(costs: &[Vec<i64>]) -> (pairs: Vec<(usize, usize)>)
    requires
        rectangular(matrix(costs@)),
        0 < costs.len() <= width(matrix(costs@)),
    ensures
        is_minimum_assignment(matrix(costs@), pairs@),
        ascending_rows(pairs@),
        pairs@ == wide_assignment(matrix(costs@)),
{
    let ghost c = matrix(costs@);
    let rows: usize = costs.len();
    assert(c[0] == costs@[0]@);
    let columns: usize = costs[0].len();
    let mut row_potential: Vec<i128> = vec![0; rows];
    let mut column_potential: Vec<i128> = vec![0; columns];
    let mut matched_row: Vec<usize> = vec![rows; columns];
    let mut predecessor: Vec<usize> = vec![columns; columns];
    assert(progress(c, 0) =~= (Progress {
        row_potential: row_potential@,
        column_potential: column_potential@,
        predecessor: predecessor@,
        holder: matched_row@,
    }));
    for row in 0..rows
        invariant
            progress(c, row as nat) == (Progress {
                row_potential: row_potential@,
                column_potential: column_potential@,
                predecessor: predecessor@,
                holder: matched_row@,
            }),
            c == matrix(costs@),
            rows == costs.len(),
            columns == width(c),
            predecessor.len() == columns,
            settled(c, row_potential@, column_potential@, matched_row@, row as int),
    {
        let (end, rank) = find_path(
            costs,
            row,
            &matched_row,
            &mut row_potential,
            &mut column_potential,
            &mut predecessor,
        );
        augment(
            &mut matched_row,
            &predecessor,
            row,
            end,
            Ghost(c),
            Ghost(row_potential@),
            Ghost(column_potential@),
            rank,
        );
    }
    let mut column_of: Vec<usize> = vec![columns; rows];
    for column in 0..columns
        invariant
            columns == matched_row.len(),
            column_of.len() == rows,
            matches_rows(matched_row@, rows as int, rows as int),
            forall|j: int|
                0 <= j < column && #[trigger] matched_row@[j] < rows
                    ==> column_of@[matched_row@[j] as int] == j,
    {
        let row: usize = matched_row[column];
        if row != rows {
            assert forall|j: int| 0 <= j < column implies #[trigger] matched_row@[j] != row by {
                if matched_row@[j] != rows {
                    assert(matched_row@[j] != matched_row@[column as int]);
                }
            }
            column_of.set(row, column);
        }
    }
    assert forall|i: int| 0 <= i < rows implies (#[trigger] column_of@[i]) < columns
        && matched_row@[column_of@[i] as int] == i by {
        assert(matched_row@.contains(i as usize));
        let j = choose|j: int| 0 <= j < columns && matched_row@[j] == i as usize;
        assert(matched_row@[j] < rows);
    }
    let mut pairs: Vec<(usize, usize)> = Vec::with_capacity(rows);
    for row in 0..rows
        invariant
            column_of.len() == rows,
            pairs.len() == row,
            forall|i: int| 0 <= i < row ==> #[trigger] pairs@[i] == (i as usize, column_of@[i]),
    {
        pairs.push((row, column_of[row]));
    }
    proof {
        assert forall|i: int| 0 <= i < rows implies #[trigger] pairs@[i] == wide_assignment(
            c,
        )[i] by {
            let j = column_of@[i] as int;
            assert(matched_row@[j] == i);
            let k = matched_row@.index_of(i as usize);
            assert(0 <= k < columns && matched_row@[k] == i as usize);
            if j < k {
                assert(matched_row@[j] != matched_row@[k]);
            } else if k < j {
                assert(matched_row@[k] != matched_row@[j]);
            }
        }
        assert(pairs@ =~= wide_assignment(c));
        lemma_wide_assignment(c);
    }
    pairs
}

} // verus!
