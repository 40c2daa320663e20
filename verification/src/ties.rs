//! Where several assignments are cheapest, the earlier columns win.

use crate::assignment::lemma_sorted_pairs;
use crate::hungarian::{lemma_first_of_same_columns, lemma_wide_assignment};
use crate::matrix::{swapped, transposed, width};
use crate::procedure::{
    found_assignment, is_nearest, lemma_augmented, lemma_nearest, lemma_search_end,
    path_starts_after, progress, row_in_tree, sorted_pairs, wide_assignment, Progress, Search,
};
use vstd::prelude::*;

verus! {

/// Every row costs the same in every column.
spec fn rows_constant(costs: Seq<Seq<i64>>) -> bool {
    &&& 0 < costs.len() <= width(costs) <= usize::MAX
    &&& forall|i: int| 0 <= i < costs.len() ==> (#[trigger] costs[i]).len() == width(costs)
    &&& forall|i: int, j: int|
        0 <= i < costs.len() && 0 <= j < width(costs) ==> #[trigger] costs[i][j] == costs[i][0]
}

/// Row `i` of the first `rows` rows has its cost as potential and holds column
/// `i`.
spec fn diagonal(costs: Seq<Seq<i64>>, rows: int) -> Progress {
    let columns = width(costs);
    Progress {
        row_potential: Seq::new(
            costs.len(),
            |i: int|
                if i < rows {
                    costs[i][0] as i128
                } else {
                    0i128
                },
        ),
        column_potential: Seq::new(columns, |j: int| 0i128),
        predecessor: Seq::new(columns, |j: int| columns as usize),
        holder: Seq::new(
            columns,
            |j: int|
                if j < rows {
                    j as usize
                } else {
                    costs.len() as usize
                },
        ),
    }
}

/// The search for row `row` after `steps` steps: the first columns one by one.
spec fn walking(costs: Seq<Seq<i64>>, row: int, steps: int) -> Search {
    let columns = width(costs);
    Search {
        row_potential: diagonal(costs, row + 1).row_potential,
        column_potential: Seq::new(columns, |j: int| 0i128),
        slack: Seq::new(columns, |j: int| 0i128),
        predecessor: Seq::new(columns, |j: int| columns as usize),
        used: Seq::new(columns, |j: int| j < steps - 1),
        current: (steps - 1) as usize,
    }
}

/// The first step reaches the first column.
proof fn lemma_first_step(costs: Seq<Seq<i64>>, row: int)
    requires
        rows_constant(costs),
        0 <= row < costs.len(),
    ensures
        diagonal(costs, row).search().next(costs, diagonal(costs, row).holder, row) == walking(
            costs,
            row,
            1,
        ),
{
    let start = diagonal(costs, row).search();
    let holder = diagonal(costs, row).holder;
    let columns = width(costs) as int;
    let after = start.next(costs, holder, row);
    let used = start.joined();
    let slack = start.relaxed_slack(costs, holder, row);
    assert(used =~= start.used);
    assert forall|j: int| 0 <= j < columns implies #[trigger] slack[j] == costs[row][0]
        && start.nearer(costs, holder, row, j) by {
        assert(costs[row][j] == costs[row][0]);
    }
    assert(is_nearest(slack, used, 0));
    lemma_nearest(slack, used, 0);
    assert(after.predecessor =~= walking(costs, row, 1).predecessor) by {
        assert forall|j: int| 0 <= j < columns implies #[trigger] after.predecessor[j]
            == columns by {
            assert(slack[j] == costs[row][0]);
            assert(start.nearer(costs, holder, row, j));
        }
    }
    assert forall|i: int| 0 <= i < costs.len() implies row_in_tree(holder, row, used, i) == (i
        == row) by {}
    assert(after.row_potential =~= walking(costs, row, 1).row_potential);
    assert(after.column_potential =~= walking(costs, row, 1).column_potential);
    assert(after.slack =~= walking(costs, row, 1).slack);
    assert(after.used =~= walking(costs, row, 1).used);
}

/// A later step reaches the next column.
proof fn lemma_later_step(costs: Seq<Seq<i64>>, row: int, steps: int)
    requires
        rows_constant(costs),
        0 <= row < costs.len(),
        1 <= steps <= row,
    ensures
        walking(costs, row, steps).next(costs, diagonal(costs, row).holder, row) == walking(
            costs,
            row,
            steps + 1,
        ),
{
    let now = walking(costs, row, steps);
    let holder = diagonal(costs, row).holder;
    let columns = width(costs) as int;
    let after = now.next(costs, holder, row);
    let wanted = walking(costs, row, steps + 1);
    let used = now.joined();
    let slack = now.relaxed_slack(costs, holder, row);
    assert(used =~= wanted.used);
    assert(now.current_row(holder, row) == steps - 1);
    assert forall|j: int| 0 <= j < columns implies !now.nearer(costs, holder, row, j)
        && #[trigger] slack[j] == 0 by {
        assert(costs[steps - 1][j] == costs[steps - 1][0]);
    }
    assert(is_nearest(slack, used, steps));
    lemma_nearest(slack, used, steps);
    assert(after.predecessor =~= wanted.predecessor) by {
        assert forall|j: int| 0 <= j < columns implies #[trigger] after.predecessor[j]
            == columns by {
            assert(slack[j] == 0);
            assert(!now.nearer(costs, holder, row, j));
        }
    }
    assert(after.row_potential =~= wanted.row_potential);
    assert(after.column_potential =~= wanted.column_potential);
    assert(after.slack =~= wanted.slack);
}

proof fn lemma_walk(costs: Seq<Seq<i64>>, row: int, steps: nat)
    requires
        rows_constant(costs),
        0 <= row < costs.len(),
        1 <= steps <= row + 1,
    ensures
        diagonal(costs, row).search().after(costs, diagonal(costs, row).holder, row, steps)
            == walking(costs, row, steps as int),
    decreases steps,
{
    let start = diagonal(costs, row).search();
    let holder = diagonal(costs, row).holder;
    if steps == 1 {
        lemma_first_step(costs, row);
        assert(start.after(costs, holder, row, 0) == start);
    } else {
        lemma_walk(costs, row, (steps - 1) as nat);
        lemma_later_step(costs, row, steps - 1);
    }
}

proof fn lemma_diagonal(costs: Seq<Seq<i64>>, rows: nat)
    requires
        rows_constant(costs),
        rows <= costs.len(),
    ensures
        progress(costs, rows) == diagonal(costs, rows as int),
    decreases rows,
{
    if rows == 0 {
        assert(progress(costs, 0) =~= diagonal(costs, 0));
    } else {
        let row = rows - 1;
        lemma_diagonal(costs, row as nat);
        let before = diagonal(costs, row);
        let holder = before.holder;
        let start = before.search();
        let columns = width(costs) as int;
        assert forall|k: nat| 0 < k < rows implies holder[(#[trigger] start.after(
            costs,
            holder,
            row,
            k,
        )).current as int] != costs.len() by {
            lemma_walk(costs, row, k);
        }
        lemma_walk(costs, row, rows);
        assert(start.ends_after(costs, holder, row, rows));
        lemma_search_end(start, costs, holder, row, rows);
        let end = start.end(costs, holder, row);
        assert(path_starts_after(end.predecessor, end.current, 0));
        lemma_augmented(holder, end.predecessor, row as usize, end.current, 0);
        let after = progress(costs, rows);
        assert(after.holder =~= diagonal(costs, rows as int).holder);
        assert(after =~= diagonal(costs, rows as int));
    }
}

/// Pairs in the order of their rows are determined by what they are.
proof fn lemma_sorted_unique(a: Seq<(usize, usize)>, b: Seq<(usize, usize)>)
    requires
        crate::matrix::ascending_rows(a),
        crate::matrix::ascending_rows(b),
        forall|x: (usize, usize)| #[trigger] a.contains(x) <==> b.contains(x),
    ensures
        a == b,
    decreases a.len(),
{
    if a.len() == 0 {
        if b.len() > 0 {
            assert(b.contains(b[0]));
            assert(a.contains(b[0]));
        }
        assert(a =~= b);
    } else {
        let x = a[a.len() - 1];
        assert(a.contains(x));
        assert(b.contains(x));
        let k = choose|k: int| 0 <= k < b.len() && b[k] == x;
        let y = b[b.len() - 1];
        assert(b.contains(y));
        assert(a.contains(y));
        let l = choose|l: int| 0 <= l < a.len() && a[l] == y;
        assert(x == y) by {
            if k < b.len() - 1 {
                assert(b[k].0 < b[b.len() - 1].0);
            }
            if l < a.len() - 1 {
                assert(a[l].0 < a[a.len() - 1].0);
            }
        }
        let (a1, b1) = (a.drop_last(), b.drop_last());
        assert forall|z: (usize, usize)| #[trigger] a1.contains(z) implies b1.contains(z) by {
            let i = choose|i: int| 0 <= i < a1.len() && a1[i] == z;
            assert(a[i].0 < a[a.len() - 1].0);
            assert(a[i] == z);
            assert(a.contains(z));
            assert(b.contains(z));
            let j = choose|j: int| 0 <= j < b.len() && b[j] == z;
            assert(b1[j] == z);
        }
        assert forall|z: (usize, usize)| #[trigger] b1.contains(z) implies a1.contains(z) by {
            let j = choose|j: int| 0 <= j < b1.len() && b1[j] == z;
            assert(b[j].0 < b[b.len() - 1].0);
            assert(b[j] == z);
            assert(b.contains(z));
            assert(a.contains(z));
            let i = choose|i: int| 0 <= i < a.len() && a[i] == z;
            assert(a1[i] == z);
        }
        assert forall|i: int, j: int| 0 <= i < j < a1.len() implies (#[trigger] a1[i]).0 < (
        #[trigger] a1[j]).0 by {
            assert(a[i].0 < a[j].0);
        }
        assert forall|i: int, j: int| 0 <= i < j < b1.len() implies (#[trigger] b1[i]).0 < (
        #[trigger] b1[j]).0 by {
            assert(b[i].0 < b[j].0);
        }
        lemma_sorted_unique(a1, b1);
        assert(a =~= a1.push(x) && b =~= b1.push(y));
    }
}

/// Where each row of a wide matrix costs the same in every column, the rows
/// get the first columns in turn.
pub proof fn lemma_equal_columns(costs: Seq<Seq<i64>>, columns: nat)
    requires
        0 < costs.len() <= columns <= usize::MAX,
        forall|i: int| 0 <= i < costs.len() ==> (#[trigger] costs[i]).len() == columns,
        forall|i: int, j: int|
            0 <= i < costs.len() && 0 <= j < columns ==> #[trigger] costs[i][j] == costs[i][0],
    ensures
        found_assignment(costs) == Seq::new(costs.len(), |i: int| (i as usize, i as usize)),
{
    assert(costs[0].len() == columns);
    lemma_diagonal(costs, costs.len());
    let holder = progress(costs, costs.len()).holder;
    let pairs = wide_assignment(costs);
    assert forall|i: int| 0 <= i < costs.len() implies #[trigger] pairs[i] == (
        i as usize,
        i as usize,
    ) by {
        assert(holder[i] == i as usize);
        let j = holder.index_of(i as usize);
        assert(0 <= j < holder.len() && holder[j] == i as usize);
    }
    assert(wide_assignment(costs) =~= Seq::new(
        costs.len(),
        |i: int| (i as usize, i as usize),
    ));
}

/// Where each column of a tall matrix costs the same in every row, the columns
/// get the first rows in turn.
pub proof fn lemma_equal_rows(costs: Seq<Seq<i64>>, columns: nat)
    requires
        0 < columns < costs.len() <= usize::MAX,
        forall|i: int| 0 <= i < costs.len() ==> (#[trigger] costs[i]).len() == columns,
        forall|i: int, j: int|
            0 <= i < costs.len() && 0 <= j < columns ==> #[trigger] costs[i][j] == costs[0][j],
    ensures
        found_assignment(costs) == Seq::new(columns, |j: int| (j as usize, j as usize)),
{
    assert(costs[0].len() == columns);
    let flipped = transposed(costs);
    let rows = costs.len();
    assert(flipped.len() == columns && width(flipped) == rows);
    assert forall|j: int, i: int| 0 <= j < columns && 0 <= i < rows implies
        #[trigger] flipped[j][i] == flipped[j][0] by {
        assert(costs[i][j] == costs[0][j]);
    }
    lemma_equal_columns(flipped, rows);
    let wanted = Seq::new(columns, |j: int| (j as usize, j as usize));
    assert(found_assignment(flipped) == wide_assignment(flipped));
    assert(swapped(wide_assignment(flipped)) =~= wanted);
    lemma_sorted_pairs(wanted, rows);
    lemma_sorted_unique(sorted_pairs(wanted, rows), wanted);
}

/// Of two columns that cost the same in every row, the second is assigned only
/// if the first is.
pub proof fn lemma_first_of_equal_columns(
    costs: Seq<Seq<i64>>,
    columns: nat,
    p: usize,
    q: usize,
)
    requires
        0 < costs.len() <= columns <= usize::MAX,
        forall|i: int| 0 <= i < costs.len() ==> (#[trigger] costs[i]).len() == columns,
        p < q < columns,
        forall|i: int|
            0 <= i < costs.len() ==> (#[trigger] costs[i])[p as int] == costs[i][q as int],
        exists|k: int|
            0 <= k < found_assignment(costs).len() && (#[trigger] found_assignment(costs)[k]).1
                == q,
    ensures
        exists|k: int|
            0 <= k < found_assignment(costs).len() && (#[trigger] found_assignment(costs)[k]).1
                == p,
{
    assert(costs[0].len() == columns);
    lemma_first_of_same_columns(costs, p, q);
}

/// Of two rows that cost the same in every column, the second is assigned only
/// if the first is.
pub proof fn lemma_first_of_equal_rows(costs: Seq<Seq<i64>>, columns: nat, p: usize, q: usize)
    requires
        0 < columns < costs.len() <= usize::MAX,
        forall|i: int| 0 <= i < costs.len() ==> (#[trigger] costs[i]).len() == columns,
        p < q < costs.len(),
        forall|j: int| 0 <= j < columns ==> #[trigger] costs[p as int][j] == costs[q as int][j],
        exists|k: int|
            0 <= k < found_assignment(costs).len() && (#[trigger] found_assignment(costs)[k]).0
                == q,
    ensures
        exists|k: int|
            0 <= k < found_assignment(costs).len() && (#[trigger] found_assignment(costs)[k]).0
                == p,
{
    let rows = costs.len();
    assert(costs[0].len() == columns);
    let flipped = transposed(costs);
    assert(flipped.len() == columns && width(flipped) == rows);
    assert forall|j: int| 0 <= j < flipped.len() implies (#[trigger] flipped[j])[p as int]
        == flipped[j][q as int] by {
        assert(costs[p as int][j] == costs[q as int][j]);
    }
    lemma_first_of_same_columns(flipped, p, q);
    lemma_wide_assignment(flipped);
    let pairs = wide_assignment(flipped);
    let wanted = swapped(pairs);
    let found = found_assignment(costs);
    assert forall|k: int, l: int| 0 <= k < l < wanted.len() implies (#[trigger] wanted[k]).0 != (
    #[trigger] wanted[l]).0 && wanted[k].1 != wanted[l].1 by {
        assert(pairs[k].0 != pairs[l].0);
    }
    assert forall|k: int| 0 <= k < wanted.len() implies (#[trigger] wanted[k]).0 < rows by {
        assert(pairs[k].1 < width(flipped));
    }
    lemma_sorted_pairs(wanted, rows);
    let k = choose|k: int| 0 <= k < found.len() && (#[trigger] found[k]).0 == q;
    assert(found.contains(found[k]));
    let l = choose|l: int| 0 <= l < wanted.len() && wanted[l] == found[k];
    assert(pairs[l].1 == q);
    let m = choose|m: int| 0 <= m < pairs.len() && (#[trigger] pairs[m]).1 == p;
    assert(wanted[m].0 == p);
    assert(wanted.contains(wanted[m]));
    assert(found.contains(wanted[m]));
    let n = choose|n: int| 0 <= n < found.len() && found[n] == wanted[m];
    assert(found[n].0 == p);
}

/// A single row gets the first of its cheapest columns.
pub proof fn lemma_single_row(costs: Seq<Seq<i64>>, best: int)
    requires
        costs.len() == 1,
        0 <= best < costs[0].len() <= usize::MAX,
        forall|j: int| 0 <= j < costs[0].len() ==> costs[0][best] <= #[trigger] costs[0][j],
        forall|j: int| 0 <= j < best ==> costs[0][best] < #[trigger] costs[0][j],
    ensures
        found_assignment(costs) == seq![(0usize, best as usize)],
{
    let columns = width(costs);
    let before = progress(costs, 0);
    let holder = before.holder;
    let start = before.search();
    let used = start.joined();
    let slack = start.relaxed_slack(costs, holder, 0);
    let after = start.next(costs, holder, 0);
    assert(used =~= start.used);
    assert forall|j: int| 0 <= j < columns implies #[trigger] slack[j] == costs[0][j]
        && start.nearer(costs, holder, 0, j) by {}
    assert(is_nearest(slack, used, best)) by {
        assert forall|j: int| 0 <= j < columns && !used[j] implies slack[best]
            <= #[trigger] slack[j] by {
            assert(costs[0][best] <= costs[0][j]);
        }
        assert forall|j: int| 0 <= j < best && !used[j] implies slack[best]
            < #[trigger] slack[j] by {
            assert(costs[0][best] < costs[0][j]);
        }
    }
    lemma_nearest(slack, used, best);
    assert(start.after(costs, holder, 0, 0) == start);
    assert(start.after(costs, holder, 0, 1) == after);
    assert(start.ends_after(costs, holder, 0, 1));
    lemma_search_end(start, costs, holder, 0, 1);
    assert(after.predecessor[best] == columns) by {
        assert(slack[best] == costs[0][best]);
        assert(start.nearer(costs, holder, 0, best));
    }
    assert(path_starts_after(after.predecessor, after.current, 0));
    lemma_augmented(holder, after.predecessor, 0, after.current, 0);
    let end = progress(costs, 1).holder;
    assert(progress(costs, 1) == before.with_row(costs, 0));
    assert(end == holder.update(best, 0usize));
    assert(end[best] == 0);
    let j = end.index_of(0usize);
    assert(0 <= j < end.len() && end[j] == 0);
    assert(j == best);
    assert(wide_assignment(costs) =~= seq![(0usize, best as usize)]);
}

/// A single column goes to the first of its cheapest rows.
pub proof fn lemma_single_column(costs: Seq<Seq<i64>>, best: int)
    requires
        1 < costs.len() <= usize::MAX,
        forall|i: int| 0 <= i < costs.len() ==> (#[trigger] costs[i]).len() == 1,
        0 <= best < costs.len(),
        forall|i: int| 0 <= i < costs.len() ==> costs[best][0] <= (#[trigger] costs[i])[0],
        forall|i: int| 0 <= i < best ==> costs[best][0] < (#[trigger] costs[i])[0],
    ensures
        found_assignment(costs) == seq![(best as usize, 0usize)],
{
    assert(costs[0].len() == 1);
    let flipped = transposed(costs);
    assert(flipped.len() == 1 && flipped[0].len() == costs.len());
    assert forall|i: int| 0 <= i < flipped[0].len() implies flipped[0][best]
        <= #[trigger] flipped[0][i] by {
        assert(costs[best][0] <= costs[i][0]);
    }
    assert forall|i: int| 0 <= i < best implies flipped[0][best] < #[trigger] flipped[0][i] by {
        assert(costs[best][0] < costs[i][0]);
    }
    lemma_single_row(flipped, best);
    let wanted = seq![(best as usize, 0usize)];
    assert(found_assignment(flipped) == wide_assignment(flipped));
    assert(swapped(wide_assignment(flipped)) =~= wanted);
    lemma_sorted_pairs(wanted, costs.len());
    lemma_sorted_unique(sorted_pairs(wanted, costs.len()), wanted);
}

} // verus!
