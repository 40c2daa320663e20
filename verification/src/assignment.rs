//! Rectangular minimum-cost assignment.

use crate::hungarian::{hungarian_rows_le_columns, lemma_wide_assignment};
use crate::matrix::{
    ascending_rows, disjoint_pairs, is_assignment, is_minimum_assignment,
    lemma_total_cost_is_sum, lemma_total_cost_reordered, lemma_total_cost_transposed, matrix, pairs_within, rectangular,
    swapped, total_cost, transposed, width,
};
use crate::procedure::{column_for, found_assignment, has_row, sorted_pairs, wide_assignment};
use crate::select::{lemma_select, select};
use vstd::prelude::*;

verus! {

/// The matrix with rows and columns exchanged.
fn transpose(costs: &[Vec<i64>]) -> (result: Vec<Vec<i64>>)
    requires
        rectangular(matrix(costs@)),
        costs.len() > 0,
    ensures
        matrix(result@) == transposed(matrix(costs@)),
{
    let ghost c = matrix(costs@);
    let rows: usize = costs.len();
    assert(c[0] == costs@[0]@);
    let columns: usize = costs[0].len();
    let mut result: Vec<Vec<i64>> = Vec::with_capacity(columns);
    for column in 0..columns
        invariant
            c == matrix(costs@),
            rectangular(c),
            rows == costs.len(),
            columns == width(c),
            result.len() == column,
            forall|j: int| 0 <= j < column ==> (#[trigger] result@[j])@ == transposed(c)[j],
    {
        let mut line: Vec<i64> = Vec::with_capacity(rows);
        for row in 0..rows
            invariant
                c == matrix(costs@),
                rectangular(c),
                rows == costs.len(),
                columns == width(c),
                column < columns,
                line.len() == row,
                forall|i: int| 0 <= i < row ==> #[trigger] line@[i] == c[i][column as int],
        {
            assert(c[row as int].len() == columns);
            assert(c[row as int] == costs@[row as int]@);
            line.push(costs[row][column]);
        }
        assert(line@ =~= transposed(c)[column as int]);
        result.push(line);
    }
    assert(matrix(result@) =~= transposed(c));
    result
}

/// The pairs exchanged, in the order of what were their second halves.
fn swap_and_sort(pairs: &Vec<(usize, usize)>, rows: usize) -> (result: Vec<(usize, usize)>)
    requires
        disjoint_pairs(pairs@),
        forall|k: int| 0 <= k < pairs.len() ==> (#[trigger] pairs@[k]).1 < rows,
    ensures
        result@ == sorted_pairs(swapped(pairs@), rows as nat),
{
    let mut at_row: Vec<Option<usize>> = vec![None; rows];
    let ghost wanted = swapped(pairs@);
    for k in 0..pairs.len()
        invariant
            wanted == swapped(pairs@),
            at_row.len() == rows,
            disjoint_pairs(pairs@),
            forall|l: int| 0 <= l < pairs.len() ==> (#[trigger] pairs@[l]).1 < rows,
            forall|l: int|
                0 <= l < k ==> at_row@[(#[trigger] wanted[l]).0 as int] == Some(wanted[l].1),
            forall|i: int|
                0 <= i < rows && (#[trigger] at_row@[i]) is Some ==> wanted.contains(
                    (i as usize, at_row@[i]->0),
                ),
    {
        let (column, row) = pairs[k];
        assert(pairs@[k as int].1 < rows);
        assert(wanted[k as int] == (row, column));
        assert forall|l: int| 0 <= l < k implies (#[trigger] wanted[l]).0 != row by {
            assert(pairs@[l].1 != pairs@[k as int].1);
        }
        at_row.set(row, Some(column));
        assert(wanted.contains((row, column)));
    }
    let mut result: Vec<(usize, usize)> = Vec::with_capacity(pairs.len());
    let ghost keep = |i: int| has_row(wanted, i);
    proof {
        assert forall|i: int| 0 <= i < rows implies #[trigger] keep(i) == (at_row@[i] is Some) by {
            if at_row@[i] is Some {
                let x = (i as usize, at_row@[i]->0);
                let k = choose|k: int| 0 <= k < wanted.len() && wanted[k] == x;
                assert(wanted[k].0 == i);
            }
            if keep(i) {
                let k = choose|k: int| 0 <= k < wanted.len() && (#[trigger] wanted[k]).0 == i;
                assert(at_row@[wanted[k].0 as int] == Some(wanted[k].1));
            }
        }
        assert forall|i: int| 0 <= i < rows && (#[trigger] at_row@[i]) is Some implies column_for(
            wanted,
            i as usize,
        ) == at_row@[i]->0 by {
            assert(keep(i));
            let k = choose|k: int| 0 <= k < wanted.len() && (#[trigger] wanted[k]).0 == i as usize;
            assert(at_row@[wanted[k].0 as int] == Some(wanted[k].1));
        }
    }
    for row in 0..rows
        invariant
            wanted == swapped(pairs@),
            at_row.len() == rows,
            forall|i: int| 0 <= i < rows ==> #[trigger] keep(i) == (at_row@[i] is Some),
            forall|i: int|
                0 <= i < rows && (#[trigger] at_row@[i]) is Some ==> column_for(
                    wanted,
                    i as usize,
                ) == at_row@[i]->0,
            result@ =~= Seq::new(
                select(row as nat, keep).len(),
                |k: int|
                    (
                        select(row as nat, keep)[k],
                        column_for(wanted, select(row as nat, keep)[k]),
                    ),
            ),
    {
        assert(keep(row as int) == (at_row@[row as int] is Some));
        if let Some(column) = at_row[row] {
            result.push((row, column));
        }
    }
    result
}

/// Sorting keeps the pairs, and puts them in the order of their left sides.
pub proof fn lemma_sorted_pairs(pairs: Seq<(usize, usize)>, rows: nat)
    requires
        disjoint_pairs(pairs),
        forall|k: int| 0 <= k < pairs.len() ==> (#[trigger] pairs[k]).0 < rows,
        rows <= usize::MAX,
    ensures
        ascending_rows(sorted_pairs(pairs, rows)),
        forall|x: (usize, usize)|
            #[trigger] sorted_pairs(pairs, rows).contains(x) <==> pairs.contains(x),
{
    let keep = |i: int| has_row(pairs, i);
    let present = select(rows, keep);
    let sorted = sorted_pairs(pairs, rows);
    lemma_select(rows, keep);
    assert forall|k: int| 0 <= k < pairs.len() implies column_for(
        pairs,
        (#[trigger] pairs[k]).0,
    ) == pairs[k].1 by {
        let l = choose|l: int| 0 <= l < pairs.len() && (#[trigger] pairs[l]).0 == pairs[k].0;
        assert(pairs[l].0 == pairs[k].0);
        if k < l {
            assert(pairs[k].0 != pairs[l].0);
        } else if l < k {
            assert(pairs[l].0 != pairs[k].0);
        }
    }
    assert forall|x: (usize, usize)| #[trigger] sorted.contains(x) implies pairs.contains(x) by {
        let k = choose|k: int| 0 <= k < sorted.len() && sorted[k] == x;
        assert(keep(present[k] as int));
        let l = choose|l: int| 0 <= l < pairs.len() && (#[trigger] pairs[l]).0 == present[k];
        assert(pairs[l] == x);
    }
    assert forall|x: (usize, usize)| #[trigger] pairs.contains(x) implies sorted.contains(x) by {
        let k = choose|k: int| 0 <= k < pairs.len() && pairs[k] == x;
        assert(pairs[k].0 < rows);
        assert(keep(x.0 as int));
        let l = choose|l: int| 0 <= l < present.len() && present[l] == x.0 as int as usize;
        assert(sorted[l] == x);
    }
    assert forall|k: int, l: int| 0 <= k < l < sorted.len() implies (#[trigger] sorted[k]).0 < (
    #[trigger] sorted[l]).0 by {
        assert(present[k] < present[l]);
    }
}

/// A cheapest assignment of the transposed matrix, swapped, is a cheapest
/// assignment of the matrix.
proof fn lemma_transposed_minimum(
    costs: Seq<Seq<i64>>,
    pairs: Seq<(usize, usize)>,
    result: Seq<(usize, usize)>,
)
    requires
        rectangular(costs),
        0 < width(costs) < costs.len(),
        is_minimum_assignment(transposed(costs), pairs),
        ascending_rows(result),
        forall|x: (usize, usize)| #[trigger] result.contains(x) <==> swapped(pairs).contains(x),
    ensures
        is_minimum_assignment(costs, result),
{
    let flipped = transposed(costs);
    assert(flipped.len() == width(costs) && width(flipped) == costs.len());
    let wanted = swapped(pairs);
    assert(wanted.no_duplicates()) by {
        assert forall|k: int, l: int|
            0 <= k < wanted.len() && 0 <= l < wanted.len() && k != l implies wanted[k]
            != wanted[l] by {
            if k < l {
                assert(pairs[k].0 != pairs[l].0);
            } else {
                assert(pairs[l].0 != pairs[k].0);
            }
        }
    }
    assert(result.no_duplicates()) by {
        assert forall|k: int, l: int|
            0 <= k < result.len() && 0 <= l < result.len() && k != l implies result[k]
            != result[l] by {
            if k < l {
                assert(result[k].0 < result[l].0);
            } else {
                assert(result[l].0 < result[k].0);
            }
        }
    }
    lemma_total_cost_reordered(costs, result, wanted);
    assert forall|k: int| 0 <= k < result.len() implies (#[trigger] result[k]).0 < costs.len()
        && result[k].1 < width(costs) by {
        assert(result.contains(result[k]));
        let l = choose|l: int| 0 <= l < wanted.len() && wanted[l] == result[k];
        assert(pairs[l].0 < flipped.len());
    }
    assert forall|k: int, l: int| 0 <= k < l < result.len() implies (#[trigger] result[k]).0
        != (#[trigger] result[l]).0 && result[k].1 != result[l].1 by {
        assert(result.contains(result[k]) && result.contains(result[l]));
        let a = choose|a: int| 0 <= a < wanted.len() && wanted[a] == result[k];
        let b = choose|b: int| 0 <= b < wanted.len() && wanted[b] == result[l];
        assert(a != b);
        if a < b {
            assert(pairs[a].0 != pairs[b].0);
        } else {
            assert(pairs[b].0 != pairs[a].0);
        }
    }
    assert(is_assignment(costs.len(), width(costs), result));
    assert(swapped(wanted) =~= pairs);
    assert(pairs_within(costs.len(), width(costs), wanted)) by {
        assert forall|k: int| 0 <= k < wanted.len() implies (#[trigger] wanted[k]).0 < costs.len()
            && wanted[k].1 < width(costs) by {
            assert(pairs[k].0 < flipped.len());
        }
    }
    lemma_total_cost_transposed(costs, wanted);
    assert forall|other: Seq<(usize, usize)>|
        #[trigger] is_assignment(costs.len(), width(costs), other) implies total_cost(costs, result)
        <= total_cost(costs, other) by {
        lemma_total_cost_transposed(costs, other);
        let turned = swapped(other);
        assert forall|k: int| 0 <= k < turned.len() implies (#[trigger] turned[k]).0 < flipped.len()
            && turned[k].1 < width(flipped) by {
            assert(other[k].0 < costs.len());
        }
        assert forall|k: int, l: int| 0 <= k < l < turned.len() implies (#[trigger] turned[k]).0
            != (#[trigger] turned[l]).0 && turned[k].1 != turned[l].1 by {
            assert(other[k].0 != other[l].0);
        }
        assert(is_assignment(flipped.len(), width(flipped), turned));
    }
}

/// The assignment that the algorithm finds is an assignment, in the order of
/// the rows, and none costs less.
pub proof fn lemma_found_assignment(costs: Seq<Seq<i64>>)
    requires
        width(costs) == 0 || rectangular(costs),
        costs.len() <= usize::MAX,
        width(costs) <= usize::MAX,
    ensures
        is_minimum_assignment(costs, found_assignment(costs)),
        ascending_rows(found_assignment(costs)),
{
    if 0 < width(costs) {
        if costs.len() <= width(costs) {
            lemma_wide_assignment(costs);
        } else {
            let flipped = transposed(costs);
            assert(flipped.len() == width(costs) && width(flipped) == costs.len());
            assert(rectangular(flipped));
            lemma_wide_assignment(flipped);
            let pairs = wide_assignment(flipped);
            let wanted = swapped(pairs);
            assert forall|k: int, l: int| 0 <= k < l < wanted.len() implies (
            #[trigger] wanted[k]).0 != (#[trigger] wanted[l]).0 && wanted[k].1 != wanted[l].1 by {
                assert(pairs[k].0 != pairs[l].0);
            }
            assert forall|k: int| 0 <= k < wanted.len() implies (#[trigger] wanted[k]).0
                < costs.len() by {
                assert(pairs[k].1 < width(flipped));
            }
            lemma_sorted_pairs(wanted, costs.len());
            lemma_transposed_minimum(costs, pairs, found_assignment(costs));
        }
    }
}

/// The assignment that the algorithm finds has as many pairs as the smaller
/// side of the matrix has members, names each row and each column at most
/// once, in the order of the rows, and costs no more than any other choice of
/// as many pairs without a row or a column twice.
pub proof fn lemma_none_cheaper(
    costs: Seq<Seq<i64>>,
    columns: nat,
    other: Seq<(usize, usize)>,
)
    requires
        costs.len() > 0,
        forall|i: int| 0 <= i < costs.len() ==> (#[trigger] costs[i]).len() == columns,
        costs.len() <= usize::MAX,
        columns <= usize::MAX,
        other.len() == vstd::math::min(costs.len() as int, columns as int),
        forall|k: int|
            0 <= k < other.len() ==> (#[trigger] other[k]).0 < costs.len() && other[k].1 < columns,
        forall|k: int, l: int|
            0 <= k < l < other.len() ==> (#[trigger] other[k]).0 != (#[trigger] other[l]).0
                && other[k].1 != other[l].1,
    ensures
        ({
            let found = found_assignment(costs);
            let price = |pair: (usize, usize)| costs[pair.0 as int][pair.1 as int] as int;
            let plus = |total: int, cost: int| total + cost;
            &&& found.len() == vstd::math::min(costs.len() as int, columns as int)
            &&& forall|k: int|
                0 <= k < found.len() ==> (#[trigger] found[k]).0 < costs.len() && found[k].1
                    < columns
            &&& forall|k: int, l: int|
                0 <= k < l < found.len() ==> (#[trigger] found[k]).0 < (#[trigger] found[l]).0
                    && found[k].1 != found[l].1
            &&& found.map_values(price).fold_left(0int, plus) <= other.map_values(
                price,
            ).fold_left(0int, plus)
        }),
{
    let found = found_assignment(costs);
    assert(costs[0].len() == columns);
    lemma_found_assignment(costs);
    lemma_total_cost_is_sum(costs, found);
    lemma_total_cost_is_sum(costs, other);
    assert(is_assignment(costs.len(), width(costs), other));
}

/// Rectangular minimum-cost assignment: as many (row, column) pairs as the
/// smaller side has members, no row and no column twice, in the order of the
/// rows, at the least total cost. Tall inputs are transposed.
pub fn linear_sum_assignment(costs: &[Vec<i64>]) -> (pairs: Vec<(usize, usize)>)
    requires
        width(matrix(costs@)) == 0 || rectangular(matrix(costs@)),
    ensures
        is_minimum_assignment(matrix(costs@), pairs@),
        ascending_rows(pairs@),
        pairs@ == found_assignment(matrix(costs@)),
{
    let ghost c = matrix(costs@);
    assert(costs@.len() == costs.len());
    proof {
        if c.len() > 0 {
            assert(c[0] == costs@[0]@);
            assert(c[0].len() == costs@[0].len());
        }
        lemma_found_assignment(c);
    }
    if costs.len() == 0 {
        return Vec::new();
    }
    if costs[0].len() == 0 {
        return Vec::new();
    }
    let rows: usize = costs.len();
    let columns: usize = costs[0].len();
    if rows <= columns {
        hungarian_rows_le_columns(costs)
    } else {
        let flipped = transpose(costs);
        let ghost f = matrix(flipped@);
        assert(f.len() == columns && width(f) == rows);
        assert(rectangular(f));
        let pairs = hungarian_rows_le_columns(flipped.as_slice());
        assert forall|k: int| 0 <= k < pairs.len() implies (#[trigger] pairs@[k]).1 < rows by {
            assert(pairs@[k].0 < f.len());
        }
        swap_and_sort(&pairs, rows)
    }
}

} // verus!
