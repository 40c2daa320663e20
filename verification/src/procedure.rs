//! Which of several cheapest assignments the algorithm finds: its course, row
//! by row and step by step, as a function of the costs.
//!
//! Where only one assignment is cheapest this is that one. Ties go to the
//! column that stands first, and a column stays with the row from which it was
//! first seen at its distance.

use crate::duality::reduced;
use crate::matrix::{swapped, transposed, width};
use crate::select::select;
use vstd::prelude::*;

verus! {

/// The state of the search for the path that takes in one more row.
#[verifier::ext_equal]
pub struct Search {
    pub row_potential: Seq<i128>,
    pub column_potential: Seq<i128>,
    pub slack: Seq<i128>,
    pub predecessor: Seq<usize>,
    pub used: Seq<bool>,
    pub current: usize,
}

/// The state between two rows.
#[verifier::ext_equal]
pub struct Progress {
    pub row_potential: Seq<i128>,
    pub column_potential: Seq<i128>,
    pub predecessor: Seq<usize>,
    pub holder: Seq<usize>,
}

/// `j` is the first of the columns outside the tree with the least slack.
pub open spec fn is_nearest(slack: Seq<i128>, used: Seq<bool>, j: int) -> bool {
    &&& 0 <= j < used.len()
    &&& !used[j]
    &&& forall|k: int| 0 <= k < used.len() && !used[k] ==> slack[j] <= #[trigger] slack[k]
    &&& forall|k: int| 0 <= k < j && !used[k] ==> slack[j] < #[trigger] slack[k]
}

pub open spec fn nearest(slack: Seq<i128>, used: Seq<bool>) -> int {
    choose|j: int| is_nearest(slack, used, j)
}

pub proof fn lemma_nearest(slack: Seq<i128>, used: Seq<bool>, j: int)
    requires
        is_nearest(slack, used, j),
    ensures
        nearest(slack, used) == j,
{
    let k = nearest(slack, used);
    assert(is_nearest(slack, used, k));
    if k < j {
        assert(slack[j] < slack[k]);
    } else if j < k {
        assert(slack[k] < slack[j]);
    }
}

/// Row `i` is the new row, or holds a column of the tree.
pub open spec fn row_in_tree(holder: Seq<usize>, row: int, used: Seq<bool>, i: int) -> bool {
    i == row || exists|j: int| 0 <= j < used.len() && #[trigger] used[j] && holder[j] == i
}

impl Search {
    /// The columns of the tree, with the one that was reached last.
    pub open spec fn joined(self) -> Seq<bool> {
        if self.current < self.used.len() {
            self.used.update(self.current as int, true)
        } else {
            self.used
        }
    }

    /// The row from which the next step looks.
    pub open spec fn current_row(self, holder: Seq<usize>, row: int) -> int {
        if self.current < self.used.len() {
            holder[self.current as int] as int
        } else {
            row
        }
    }

    /// Column `j` is outside the tree, and nearer to the current row than to
    /// any row before.
    pub open spec fn nearer(
        self,
        costs: Seq<Seq<i64>>,
        holder: Seq<usize>,
        row: int,
        j: int,
    ) -> bool {
        !self.joined()[j] && reduced(
            costs,
            self.row_potential,
            self.column_potential,
            self.current_row(holder, row),
            j,
        ) < self.slack[j]
    }

    pub open spec fn relaxed_slack(
        self,
        costs: Seq<Seq<i64>>,
        holder: Seq<usize>,
        row: int,
    ) -> Seq<i128> {
        Seq::new(
            self.used.len(),
            |j: int|
                if self.nearer(costs, holder, row, j) {
                    reduced(
                        costs,
                        self.row_potential,
                        self.column_potential,
                        self.current_row(holder, row),
                        j,
                    ) as i128
                } else {
                    self.slack[j]
                },
        )
    }

    pub open spec fn relaxed_predecessor(
        self,
        costs: Seq<Seq<i64>>,
        holder: Seq<usize>,
        row: int,
    ) -> Seq<usize> {
        Seq::new(
            self.used.len(),
            |j: int|
                if self.nearer(costs, holder, row, j) {
                    self.current
                } else {
                    self.predecessor[j]
                },
        )
    }

    /// The next step: take in the current column, look from its row, go on to
    /// the nearest column, and move its slack into the potentials of the tree.
    pub open spec fn next(self, costs: Seq<Seq<i64>>, holder: Seq<usize>, row: int) -> Search {
        let used = self.joined();
        let slack = self.relaxed_slack(costs, holder, row);
        let reached = nearest(slack, used);
        let delta = slack[reached];
        Search {
            row_potential: Seq::new(
                self.row_potential.len(),
                |i: int|
                    if row_in_tree(holder, row, used, i) {
                        (self.row_potential[i] + delta) as i128
                    } else {
                        self.row_potential[i]
                    },
            ),
            column_potential: Seq::new(
                self.column_potential.len(),
                |j: int|
                    if used[j] {
                        (self.column_potential[j] - delta) as i128
                    } else {
                        self.column_potential[j]
                    },
            ),
            slack: Seq::new(
                slack.len(),
                |j: int|
                    if used[j] {
                        slack[j]
                    } else {
                        (slack[j] - delta) as i128
                    },
            ),
            predecessor: self.relaxed_predecessor(costs, holder, row),
            used,
            current: reached as usize,
        }
    }

    /// The state `steps` steps on.
    pub open spec fn after(
        self,
        costs: Seq<Seq<i64>>,
        holder: Seq<usize>,
        row: int,
        steps: nat,
    ) -> Search
        decreases steps,
    {
        if steps == 0 {
            self
        } else {
            self.after(costs, holder, row, (steps - 1) as nat).next(costs, holder, row)
        }
    }

    /// The first step that reaches a column without a holder is number `steps`.
    pub open spec fn ends_after(
        self,
        costs: Seq<Seq<i64>>,
        holder: Seq<usize>,
        row: int,
        steps: nat,
    ) -> bool {
        &&& steps > 0
        &&& holder[self.after(costs, holder, row, steps).current as int] == costs.len()
        &&& forall|k: nat|
            0 < k < steps ==> holder[(#[trigger] self.after(costs, holder, row, k)).current as int]
                != costs.len()
    }

    /// The state in which the search ends.
    pub open spec fn end(self, costs: Seq<Seq<i64>>, holder: Seq<usize>, row: int) -> Search {
        self.after(
            costs,
            holder,
            row,
            choose|steps: nat| self.ends_after(costs, holder, row, steps),
        )
    }
}

pub proof fn lemma_search_end(
    start: Search,
    costs: Seq<Seq<i64>>,
    holder: Seq<usize>,
    row: int,
    steps: nat,
)
    requires
        start.ends_after(costs, holder, row, steps),
    ensures
        start.end(costs, holder, row) == start.after(costs, holder, row, steps),
{
    let chosen = choose|steps: nat| start.ends_after(costs, holder, row, steps);
    assert(start.ends_after(costs, holder, row, chosen));
    if chosen < steps {
        assert(holder[start.after(costs, holder, row, chosen).current as int] != costs.len());
    } else if steps < chosen {
        assert(holder[start.after(costs, holder, row, steps).current as int] != costs.len());
    }
}

/// The column `steps` places before `end` on the path that leads to it.
pub open spec fn hole_after(predecessor: Seq<usize>, end: usize, steps: nat) -> usize
    decreases steps,
{
    if steps == 0 {
        end
    } else {
        predecessor[hole_after(predecessor, end, (steps - 1) as nat) as int]
    }
}

/// The holders with the rows of the last `steps` places of the path moved on.
pub open spec fn moved_on(
    holder: Seq<usize>,
    predecessor: Seq<usize>,
    end: usize,
    steps: nat,
) -> Seq<usize>
    decreases steps,
{
    if steps == 0 {
        holder
    } else {
        let before = moved_on(holder, predecessor, end, (steps - 1) as nat);
        before.update(
            hole_after(predecessor, end, (steps - 1) as nat) as int,
            before[hole_after(predecessor, end, steps) as int],
        )
    }
}

/// The column `steps` places before `end` is the first of the path.
pub open spec fn path_starts_after(predecessor: Seq<usize>, end: usize, steps: nat) -> bool {
    &&& predecessor[hole_after(predecessor, end, steps) as int] == predecessor.len()
    &&& forall|k: nat|
        k < steps ==> predecessor[#[trigger] hole_after(predecessor, end, k) as int]
            != predecessor.len()
}

/// The holders after the rows on the path have moved on and the new row has
/// taken the first column of the path.
pub open spec fn augmented(
    holder: Seq<usize>,
    predecessor: Seq<usize>,
    row: usize,
    end: usize,
) -> Seq<usize> {
    let steps = choose|steps: nat| path_starts_after(predecessor, end, steps);
    moved_on(holder, predecessor, end, steps).update(
        hole_after(predecessor, end, steps) as int,
        row,
    )
}

pub proof fn lemma_augmented(
    holder: Seq<usize>,
    predecessor: Seq<usize>,
    row: usize,
    end: usize,
    steps: nat,
)
    requires
        path_starts_after(predecessor, end, steps),
    ensures
        augmented(holder, predecessor, row, end) == moved_on(
            holder,
            predecessor,
            end,
            steps,
        ).update(hole_after(predecessor, end, steps) as int, row),
{
    let chosen = choose|steps: nat| path_starts_after(predecessor, end, steps);
    assert(path_starts_after(predecessor, end, chosen));
    if chosen < steps {
        assert(predecessor[hole_after(predecessor, end, chosen) as int] != predecessor.len());
    } else if steps < chosen {
        assert(predecessor[hole_after(predecessor, end, steps) as int] != predecessor.len());
    }
}

impl Progress {
    /// The search for the path of the next row, before its first step.
    pub open spec fn search(self) -> Search {
        let columns = self.holder.len();
        Search {
            row_potential: self.row_potential,
            column_potential: self.column_potential,
            slack: Seq::new(columns, |j: int| i128::MAX),
            predecessor: self.predecessor,
            used: Seq::new(columns, |j: int| false),
            current: columns as usize,
        }
    }

    /// The state after one more row.
    pub open spec fn with_row(self, costs: Seq<Seq<i64>>, row: int) -> Progress {
        let end = self.search().end(costs, self.holder, row);
        Progress {
            row_potential: end.row_potential,
            column_potential: end.column_potential,
            predecessor: end.predecessor,
            holder: augmented(self.holder, end.predecessor, row as usize, end.current),
        }
    }
}

/// The state after the first `rows` rows.
pub open spec fn progress(costs: Seq<Seq<i64>>, rows: nat) -> Progress
    decreases rows,
{
    if rows == 0 {
        Progress {
            row_potential: Seq::new(costs.len(), |i: int| 0i128),
            column_potential: Seq::new(width(costs), |j: int| 0i128),
            predecessor: Seq::new(width(costs), |j: int| width(costs) as usize),
            holder: Seq::new(width(costs), |j: int| costs.len() as usize),
        }
    } else {
        progress(costs, (rows - 1) as nat).with_row(costs, rows - 1)
    }
}

/// The assignment of a wide matrix that the algorithm finds.
pub open spec fn wide_assignment(costs: Seq<Seq<i64>>) -> Seq<(usize, usize)> {
    let holder = progress(costs, costs.len()).holder;
    Seq::new(costs.len(), |i: int| (i as usize, holder.index_of(i as usize) as usize))
}

/// Some pair has `row` on its left side.
pub open spec fn has_row(pairs: Seq<(usize, usize)>, row: int) -> bool {
    exists|k: int| 0 <= k < pairs.len() && (#[trigger] pairs[k]).0 == row
}

/// What stands on the right of `row`.
pub open spec fn column_for(pairs: Seq<(usize, usize)>, row: usize) -> usize {
    pairs[choose|k: int| 0 <= k < pairs.len() && (#[trigger] pairs[k]).0 == row].1
}

/// The pairs in the order of their left sides, which are below `rows`.
pub open spec fn sorted_pairs(pairs: Seq<(usize, usize)>, rows: nat) -> Seq<(usize, usize)> {
    let present = select(rows, |i: int| has_row(pairs, i));
    Seq::new(present.len(), |k: int| (present[k], column_for(pairs, present[k])))
}

/// The assignment that the algorithm finds; a tall matrix is transposed.
pub open spec fn found_assignment(costs: Seq<Seq<i64>>) -> Seq<(usize, usize)> {
    if width(costs) == 0 {
        Seq::empty()
    } else if costs.len() <= width(costs) {
        wide_assignment(costs)
    } else {
        sorted_pairs(swapped(wide_assignment(transposed(costs))), costs.len())
    }
}

} // verus!
