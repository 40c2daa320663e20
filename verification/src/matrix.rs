//! Matrices of costs, and what an assignment of rows to columns is.

use vstd::prelude::*;

verus! {

/// The mathematical matrix that a slice of row vectors holds.
pub open spec fn matrix<T>(rows: Seq<Vec<T>>) -> Seq<Seq<T>> {
    Seq::new(rows.len(), |i: int| rows[i]@)
}

/// The number of columns of `m`: the length of its first row, 0 without rows.
pub open spec fn width<T>(m: Seq<Seq<T>>) -> nat {
    if m.len() == 0 {
        0
    } else {
        m[0].len()
    }
}

/// Every row of `m` is as long as the first.
pub open spec fn rectangular<T>(m: Seq<Seq<T>>) -> bool {
    forall|i: int| 0 <= i < m.len() ==> (#[trigger] m[i]).len() == width(m)
}

/// `m` with rows and columns exchanged.
pub open spec fn transposed<T>(m: Seq<Seq<T>>) -> Seq<Seq<T>> {
    Seq::new(width(m), |j: int| Seq::new(m.len(), |i: int| m[i][j]))
}

/// No row and no column occurs in two of the pairs.
pub open spec fn disjoint_pairs(pairs: Seq<(usize, usize)>) -> bool {
    forall|k: int, l: int|
        0 <= k < l < pairs.len() ==> (#[trigger] pairs[k]).0 != (#[trigger] pairs[l]).0
            && pairs[k].1 != pairs[l].1
}

/// Each pair names a row and a column of a `rows` by `columns` matrix.
pub open spec fn pairs_within(rows: nat, columns: nat, pairs: Seq<(usize, usize)>) -> bool {
    forall|k: int|
        0 <= k < pairs.len() ==> (#[trigger] pairs[k]).0 < rows && pairs[k].1 < columns
}

/// `pairs` gives as many rows as possible a column each, no column twice: all
/// rows of a wide matrix, and as many as there are columns in a tall one.
pub open spec fn is_assignment(rows: nat, columns: nat, pairs: Seq<(usize, usize)>) -> bool {
    &&& pairs.len() == if rows <= columns {
        rows
    } else {
        columns
    }
    &&& pairs_within(rows, columns, pairs)
    &&& disjoint_pairs(pairs)
}

/// The sum of the costs at the given (row, column) pairs.
pub open spec fn total_cost(costs: Seq<Seq<i64>>, pairs: Seq<(usize, usize)>) -> int
    decreases pairs.len(),
{
    if pairs.len() == 0 {
        0
    } else {
        total_cost(costs, pairs.drop_last())
            + costs[pairs.last().0 as int][pairs.last().1 as int]
    }
}

/// `pairs` is an assignment, and no assignment costs less.
pub open spec fn is_minimum_assignment(costs: Seq<Seq<i64>>, pairs: Seq<(usize, usize)>) -> bool {
    &&& is_assignment(costs.len(), width(costs), pairs)
    &&& forall|other: Seq<(usize, usize)>|
        #[trigger] is_assignment(costs.len(), width(costs), other) ==> total_cost(costs, pairs)
            <= total_cost(costs, other)
}

/// The pairs stand in the order of their rows, each row once.
pub open spec fn ascending_rows(pairs: Seq<(usize, usize)>) -> bool {
    forall|k: int, l: int|
        0 <= k < l < pairs.len() ==> (#[trigger] pairs[k]).0 < (#[trigger] pairs[l]).0
}

/// Each pair with its two halves exchanged.
pub open spec fn swapped(pairs: Seq<(usize, usize)>) -> Seq<(usize, usize)> {
    Seq::new(pairs.len(), |k: int| (pairs[k].1, pairs[k].0))
}

/// Taking one pair out lowers the total by its cost.
proof fn lemma_total_cost_remove(costs: Seq<Seq<i64>>, pairs: Seq<(usize, usize)>, k: int)
    requires
        0 <= k < pairs.len(),
    ensures
        total_cost(costs, pairs) == total_cost(costs, pairs.remove(k))
            + costs[pairs[k].0 as int][pairs[k].1 as int],
    decreases pairs.len(),
{
    if k == pairs.len() - 1 {
        assert(pairs.remove(k) =~= pairs.drop_last());
    } else {
        lemma_total_cost_remove(costs, pairs.drop_last(), k);
        assert(pairs.remove(k).drop_last() =~= pairs.drop_last().remove(k));
        assert(pairs.remove(k).last() == pairs.last());
        assert(pairs.drop_last()[k] == pairs[k]);
    }
}

/// The total does not depend on the order in which the pairs stand.
pub proof fn lemma_total_cost_reordered(
    costs: Seq<Seq<i64>>,
    a: Seq<(usize, usize)>,
    b: Seq<(usize, usize)>,
)
    requires
        a.no_duplicates(),
        b.no_duplicates(),
        forall|x: (usize, usize)| #[trigger] a.contains(x) <==> b.contains(x),
    ensures
        a.len() == b.len(),
        total_cost(costs, a) == total_cost(costs, b),
    decreases a.len(),
{
    if a.len() == 0 {
        if b.len() > 0 {
            assert(b.contains(b[0]));
            assert(a.contains(b[0]));
        }
    } else {
        let x = a.last();
        assert(a.contains(x));
        let k = choose|k: int| 0 <= k < b.len() && b[k] == x;
        let a1 = a.drop_last();
        let b1 = b.remove(k);
        assert forall|y: (usize, usize)| #[trigger] a1.contains(y) implies b1.contains(y) by {
            let i = choose|i: int| 0 <= i < a1.len() && a1[i] == y;
            assert(a[i] == y);
            assert(a.contains(y));
            let l = choose|l: int| 0 <= l < b.len() && b[l] == y;
            assert(l != k);
            if l < k {
                assert(b1[l] == y);
            } else {
                assert(b1[l - 1] == y);
            }
        }
        assert forall|y: (usize, usize)| #[trigger] b1.contains(y) implies a1.contains(y) by {
            let l = choose|l: int| 0 <= l < b1.len() && b1[l] == y;
            let l0: int = if l < k {
                l
            } else {
                l + 1
            };
            assert(b[l0] == y);
            assert(b.contains(y));
            assert(a.contains(y));
            let i = choose|i: int| 0 <= i < a.len() && a[i] == y;
            assert(i != a.len() - 1);
            assert(a1[i] == y);
        }
        assert(a1.no_duplicates());
        assert(b1.no_duplicates());
        lemma_total_cost_reordered(costs, a1, b1);
        lemma_total_cost_remove(costs, b, k);
    }
}

/// Exchanging rows and columns of the matrix and of the pairs keeps the total.
pub proof fn lemma_total_cost_transposed(costs: Seq<Seq<i64>>, pairs: Seq<(usize, usize)>)
    requires
        pairs_within(costs.len(), width(costs), pairs),
    ensures
        total_cost(transposed(costs), swapped(pairs)) == total_cost(costs, pairs),
    decreases pairs.len(),
{
    if pairs.len() > 0 {
        assert(swapped(pairs).drop_last() =~= swapped(pairs.drop_last()));
        assert(pairs_within(costs.len(), width(costs), pairs.drop_last())) by {
            assert forall|k: int| 0 <= k < pairs.drop_last().len() implies (
            #[trigger] pairs.drop_last()[k]).0 < costs.len() && pairs.drop_last()[k].1 < width(
                costs,
            ) by {
                assert(pairs.drop_last()[k] == pairs[k]);
            }
        }
        lemma_total_cost_transposed(costs, pairs.drop_last());
        let last = pairs[pairs.len() - 1];
        assert(swapped(pairs).last() == (last.1, last.0));
        assert(transposed(costs)[last.1 as int][last.0 as int] == costs[last.0 as int][last.1 as int]);
    }
}

/// A matrix has the rows of the slice, each with its own members.
pub proof fn lemma_matrix<T>(rows: Seq<Vec<T>>, i: int, j: int)
    requires
        0 <= i < rows.len(),
        0 <= j < rows[i]@.len(),
    ensures
        matrix(rows).len() == rows.len(),
        matrix(rows)[i].len() == rows[i]@.len(),
        matrix(rows)[i][j] == rows[i]@[j],
{
}

/// The total is the sum of the costs of all pairs.
pub proof fn lemma_total_cost_is_sum(costs: Seq<Seq<i64>>, pairs: Seq<(usize, usize)>)
    ensures
        total_cost(costs, pairs) == pairs.map_values(
            |pair: (usize, usize)| costs[pair.0 as int][pair.1 as int] as int,
        ).fold_left(0int, |total: int, cost: int| total + cost),
    decreases pairs.len(),
{
    let price = |pair: (usize, usize)| costs[pair.0 as int][pair.1 as int] as int;
    if pairs.len() > 0 {
        lemma_total_cost_is_sum(costs, pairs.drop_last());
        assert(pairs.map_values(price).drop_last() =~= pairs.drop_last().map_values(price));
    }
}

} // verus!
