//! Potentials as a certificate that an assignment is cheapest.

use crate::matrix::{is_assignment, is_minimum_assignment, pairs_within, total_cost, width};
use vstd::prelude::*;

verus! {

/// The sum of `weights`.
pub open spec fn sum(weights: Seq<int>) -> int
    decreases weights.len(),
{
    if weights.len() == 0 {
        0
    } else {
        sum(weights.drop_last()) + weights.last()
    }
}

/// The sum of the weights at the given places.
pub open spec fn sum_at(weights: Seq<int>, places: Seq<int>) -> int
    decreases places.len(),
{
    if places.len() == 0 {
        0
    } else {
        sum_at(weights, places.drop_last()) + weights[places.last()]
    }
}

/// Distinct numbers below `bound` are at most `bound` many.
pub proof fn lemma_distinct_below(numbers: Seq<int>, bound: int)
    requires
        0 <= bound,
        numbers.no_duplicates(),
        forall|k: int| 0 <= k < numbers.len() ==> 0 <= #[trigger] numbers[k] < bound,
    ensures
        numbers.len() <= bound,
{
    numbers.unique_seq_to_set();
    vstd::set_lib::lemma_int_range(0, bound);
    assert(numbers.to_set().subset_of(vstd::set_lib::set_int_range(0, bound)));
    vstd::set_lib::lemma_len_subset(numbers.to_set(), vstd::set_lib::set_int_range(0, bound));
}

/// `bound` distinct numbers below `bound` leave none out.
proof fn lemma_distinct_cover(numbers: Seq<int>, bound: int, x: int)
    requires
        numbers.no_duplicates(),
        numbers.len() == bound,
        forall|k: int| 0 <= k < numbers.len() ==> 0 <= #[trigger] numbers[k] < bound,
        0 <= x < bound,
    ensures
        numbers.contains(x),
{
    if !numbers.contains(x) {
        let more = numbers.push(x);
        assert forall|k: int| 0 <= k < more.len() implies 0 <= #[trigger] more[k] < bound by {
            if k < numbers.len() {
                assert(more[k] == numbers[k]);
            }
        }
        assert forall|k: int, l: int| 0 <= k < more.len() && 0 <= l < more.len() && k != l implies
            more[k] != more[l] by {
            if k == numbers.len() {
                assert(numbers.contains(numbers[l]));
            } else if l == numbers.len() {
                assert(numbers.contains(numbers[k]));
            }
        }
        lemma_distinct_below(more, bound);
    }
}

proof fn lemma_sum_at_remove(weights: Seq<int>, places: Seq<int>, k: int)
    requires
        0 <= k < places.len(),
    ensures
        sum_at(weights, places) == sum_at(weights, places.remove(k)) + weights[places[k]],
    decreases places.len(),
{
    if k == places.len() - 1 {
        assert(places.remove(k) =~= places.drop_last());
    } else {
        lemma_sum_at_remove(weights, places.drop_last(), k);
        assert(places.remove(k).drop_last() =~= places.drop_last().remove(k));
    }
}

proof fn lemma_sum_at_prefix(weights: Seq<int>, places: Seq<int>)
    requires
        weights.len() > 0,
        forall|k: int| 0 <= k < places.len() ==> 0 <= #[trigger] places[k] < weights.len() - 1,
    ensures
        sum_at(weights, places) == sum_at(weights.drop_last(), places),
    decreases places.len(),
{
    if places.len() > 0 {
        let front = places.drop_last();
        assert forall|k: int| 0 <= k < front.len() implies 0 <= #[trigger] front[k] < weights.len()
            - 1 by {
            assert(front[k] == places[k]);
        }
        lemma_sum_at_prefix(weights, front);
        assert(places.last() == places[places.len() - 1]);
    }
}

/// Weights that are 0 outside distinct places add up to the sum at those
/// places; weights that are at most 0 add up to no more.
proof fn lemma_sum_at_distinct(weights: Seq<int>, places: Seq<int>)
    requires
        places.no_duplicates(),
        forall|k: int| 0 <= k < places.len() ==> 0 <= #[trigger] places[k] < weights.len(),
    ensures
        (forall|x: int| 0 <= x < weights.len() && !places.contains(x) ==> #[trigger] weights[x] == 0)
            ==> sum_at(weights, places) == sum(weights),
        (forall|x: int| 0 <= x < weights.len() ==> #[trigger] weights[x] <= 0) ==> sum_at(
            weights,
            places,
        ) >= sum(weights),
    decreases weights.len(),
{
    if weights.len() == 0 {
        if places.len() > 0 {
            assert(0 <= places[0] < weights.len());
        }
    } else {
        let x = weights.len() - 1;
        let front = weights.drop_last();
        if places.contains(x) {
            let k = choose|k: int| 0 <= k < places.len() && places[k] == x;
            let rest = places.remove(k);
            assert forall|l: int| 0 <= l < rest.len() implies 0 <= #[trigger] rest[l] < front.len() by {
                if l < k {
                    assert(rest[l] == places[l]);
                } else {
                    assert(rest[l] == places[l + 1]);
                }
            }
            assert(rest.no_duplicates());
            lemma_sum_at_remove(weights, places, k);
            lemma_sum_at_prefix(weights, rest);
            lemma_sum_at_distinct(front, rest);
            if forall|y: int|
                0 <= y < weights.len() && !places.contains(y) ==> #[trigger] weights[y] == 0 {
                assert forall|y: int| 0 <= y < front.len() && !rest.contains(y) implies
                    #[trigger] front[y] == 0 by {
                    if places.contains(y) {
                        let l = choose|l: int| 0 <= l < places.len() && places[l] == y;
                        assert(l != k);
                        if l < k {
                            assert(rest[l] == y);
                        } else {
                            assert(rest[l - 1] == y);
                        }
                    }
                    assert(weights[y] == 0);
                }
            }
        } else {
            assert forall|l: int| 0 <= l < places.len() implies 0 <= #[trigger] places[l]
                < front.len() by {
                assert(places.contains(places[l]));
            }
            lemma_sum_at_prefix(weights, places);
            lemma_sum_at_distinct(front, places);
            if forall|y: int|
                0 <= y < weights.len() && !places.contains(y) ==> #[trigger] weights[y] == 0 {
                assert(weights[x] == 0);
                assert forall|y: int| 0 <= y < front.len() && !places.contains(y) implies
                    #[trigger] front[y] == 0 by {
                    assert(weights[y] == 0);
                }
            }
            if forall|y: int| 0 <= y < weights.len() ==> #[trigger] weights[y] <= 0 {
                assert(weights[x] <= 0);
                assert forall|y: int| 0 <= y < front.len() implies #[trigger] front[y] <= 0 by {
                    assert(weights[y] <= 0);
                }
            }
        }
    }
}

/// What is left of the cost at (`i`, `j`) after taking off both potentials.
pub open spec fn reduced(costs: Seq<Seq<i64>>, u: Seq<i128>, v: Seq<i128>, i: int, j: int) -> int {
    costs[i][j] - u[i] - v[j]
}

spec fn row_places(pairs: Seq<(usize, usize)>) -> Seq<int> {
    Seq::new(pairs.len(), |k: int| pairs[k].0 as int)
}

spec fn column_places(pairs: Seq<(usize, usize)>) -> Seq<int> {
    Seq::new(pairs.len(), |k: int| pairs[k].1 as int)
}

spec fn as_ints(w: Seq<i128>) -> Seq<int> {
    Seq::new(w.len(), |k: int| w[k] as int)
}

/// Nonnegative reduced costs bound a total from below by the potentials;
/// reduced costs of 0 make the bound exact.
proof fn lemma_total_cost_bound(
    costs: Seq<Seq<i64>>,
    u: Seq<i128>,
    v: Seq<i128>,
    pairs: Seq<(usize, usize)>,
)
    requires
        u.len() == costs.len(),
        v.len() == width(costs),
        pairs_within(costs.len(), width(costs), pairs),
    ensures
        (forall|k: int|
            0 <= k < pairs.len() ==> reduced(
                costs,
                u,
                v,
                (#[trigger] pairs[k]).0 as int,
                pairs[k].1 as int,
            ) >= 0) ==> total_cost(costs, pairs) >= sum_at(as_ints(u), row_places(pairs)) + sum_at(
            as_ints(v),
            column_places(pairs),
        ),
        (forall|k: int|
            0 <= k < pairs.len() ==> reduced(
                costs,
                u,
                v,
                (#[trigger] pairs[k]).0 as int,
                pairs[k].1 as int,
            ) == 0) ==> total_cost(costs, pairs) == sum_at(as_ints(u), row_places(pairs)) + sum_at(
            as_ints(v),
            column_places(pairs),
        ),
    decreases pairs.len(),
{
    if pairs.len() > 0 {
        let front = pairs.drop_last();
        assert(row_places(pairs).drop_last() =~= row_places(front));
        assert(column_places(pairs).drop_last() =~= column_places(front));
        assert forall|k: int| 0 <= k < front.len() implies (#[trigger] front[k]).0 < costs.len()
            && front[k].1 < width(costs) by {
            assert(front[k] == pairs[k]);
        }
        lemma_total_cost_bound(costs, u, v, front);
        let last = pairs[pairs.len() - 1];
        assert(row_places(pairs).last() == last.0);
        assert(column_places(pairs).last() == last.1);
        assert(as_ints(u)[last.0 as int] == u[last.0 as int]);
        assert(as_ints(v)[last.1 as int] == v[last.1 as int]);
        if forall|k: int|
            0 <= k < pairs.len() ==> reduced(
                costs,
                u,
                v,
                (#[trigger] pairs[k]).0 as int,
                pairs[k].1 as int,
            ) >= 0 {
            assert forall|k: int| 0 <= k < front.len() implies reduced(
                costs,
                u,
                v,
                (#[trigger] front[k]).0 as int,
                front[k].1 as int,
            ) >= 0 by {
                assert(front[k] == pairs[k]);
            }
        }
        if forall|k: int|
            0 <= k < pairs.len() ==> reduced(
                costs,
                u,
                v,
                (#[trigger] pairs[k]).0 as int,
                pairs[k].1 as int,
            ) == 0 {
            assert forall|k: int| 0 <= k < front.len() implies reduced(
                costs,
                u,
                v,
                (#[trigger] front[k]).0 as int,
                front[k].1 as int,
            ) == 0 by {
                assert(front[k] == pairs[k]);
            }
        }
    }
}

/// An assignment of all rows of a wide matrix is cheapest if potentials exist
/// under which no reduced cost is negative, those of its own pairs are 0, no
/// column potential is positive, and those of the columns that it leaves out
/// are 0.
pub proof fn lemma_potentials_certify(
    costs: Seq<Seq<i64>>,
    u: Seq<i128>,
    v: Seq<i128>,
    pairs: Seq<(usize, usize)>,
)
    requires
        costs.len() <= width(costs),
        u.len() == costs.len(),
        v.len() == width(costs),
        is_assignment(costs.len(), width(costs), pairs),
        forall|i: int, j: int|
            0 <= i < costs.len() && 0 <= j < width(costs) ==> #[trigger] reduced(costs, u, v, i, j)
                >= 0,
        forall|k: int|
            0 <= k < pairs.len() ==> reduced(
                costs,
                u,
                v,
                (#[trigger] pairs[k]).0 as int,
                pairs[k].1 as int,
            ) == 0,
        forall|j: int| 0 <= j < width(costs) ==> #[trigger] v[j] <= 0,
        forall|j: int|
            0 <= j < width(costs) && (forall|k: int| 0 <= k < pairs.len() ==> (#[trigger] pairs[k]).1 != j)
                ==> #[trigger] v[j] == 0,
    ensures
        is_minimum_assignment(costs, pairs),
{
    lemma_total_cost_bound(costs, u, v, pairs);
    lemma_rows_cover(costs.len(), width(costs), as_ints(u), pairs);
    let places = column_places(pairs);
    assert(places.no_duplicates());
    assert forall|x: int| 0 <= x < as_ints(v).len() && !places.contains(x) implies
        #[trigger] as_ints(v)[x] == 0 by {
        assert forall|k: int| 0 <= k < pairs.len() implies (#[trigger] pairs[k]).1 != x by {
            assert(places[k] == pairs[k].1);
            assert(places.contains(places[k]));
        }
        assert(v[x] == 0);
    }
    lemma_sum_at_distinct(as_ints(v), places);
    assert forall|other: Seq<(usize, usize)>|
        #[trigger] is_assignment(costs.len(), width(costs), other) implies total_cost(costs, pairs)
        <= total_cost(costs, other) by {
        lemma_total_cost_bound(costs, u, v, other);
        lemma_rows_cover(costs.len(), width(costs), as_ints(u), other);
        assert(column_places(other).no_duplicates());
        assert forall|x: int| 0 <= x < as_ints(v).len() implies #[trigger] as_ints(v)[x] <= 0 by {
            assert(v[x] <= 0);
        }
        lemma_sum_at_distinct(as_ints(v), column_places(other));
    }
}

proof fn lemma_rows_cover(rows: nat, columns: nat, u: Seq<int>, pairs: Seq<(usize, usize)>)
    requires
        rows <= columns,
        u.len() == rows,
        is_assignment(rows, columns, pairs),
    ensures
        sum_at(u, row_places(pairs)) == sum(u),
{
    let places = row_places(pairs);
    assert(places.no_duplicates());
    assert forall|x: int| 0 <= x < u.len() && !places.contains(x) implies #[trigger] u[x] == 0 by {
        lemma_distinct_cover(places, rows as int, x);
    }
    lemma_sum_at_distinct(u, places);
}

} // verus!
