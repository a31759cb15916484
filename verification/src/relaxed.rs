//! Constraints in the form the solving engine works with: instead of one
//! exact target, a run carries a `[min, max]` range. An original constraint
//! is the special case `min == max`; projecting a constraint into one half of
//! a split puzzle widens the range (see the splitting module).

use crate::game::{digits_of, seq_sum, Value};
use crate::sum_table::{spec_reachable, used_of};
use vstd::prelude::*;

verus! {

/// A run over `cells` whose digit sum must lie in `min..=max`.
pub struct Constraint {
    pub cells: Vec<usize>,
    pub min: Value,
    pub max: Value,
}

impl Constraint {
    /// A structurally valid constraint: between 1 and 9 distinct cell
    /// indices, all in range.
    pub open spec fn wf(self, num_cells: nat) -> bool {
        &&& 1 <= self.cells@.len() <= 9
        &&& forall|i: int| 0 <= i < self.cells@.len() ==> (self.cells@[i] as nat) < num_cells
        &&& self.cells@.no_duplicates()
    }

    /// Whether `solution` satisfies this constraint: pairwise distinct digits
    /// whose sum lies in the allowed range.
    pub open spec fn spec_satisfied(self, solution: Seq<Value>) -> bool {
        &&& digits_of(self.cells@, solution).no_duplicates()
        &&& self.min <= seq_sum(digits_of(self.cells@, solution)) <= self.max
    }

    /// Whether a partially filled board can still satisfy this constraint:
    /// the digits already placed in its cells are pairwise distinct, and some
    /// allowed total is still reachable by filling the remaining cells with
    /// distinct unused digits.
    pub open spec fn partial_ok(self, prefix: Seq<Value>) -> bool {
        let ds = filled_digits(self.cells@, prefix);
        &&& ds.no_duplicates()
        &&& exists|t: int|
            self.min <= t <= self.max && #[trigger] spec_reachable(
                used_of(ds),
                1,
                (self.cells@.len() - ds.len()) as nat,
                t - seq_sum(ds),
            )
    }
}

/// Whether `solution` solves the puzzle `(num_cells, constraints)`.
pub open spec fn spec_is_solution(
    num_cells: nat,
    constraints: Seq<Constraint>,
    solution: Seq<Value>,
) -> bool {
    &&& solution.len() == num_cells
    &&& forall|i: int| 0 <= i < solution.len() ==> 1 <= #[trigger] solution[i] <= 9
    &&& forall|c: int| 0 <= c < constraints.len() ==> #[trigger] constraints[c].spec_satisfied(
        solution,
    )
}

/// Whether every constraint can still be satisfied by some completion of
/// `prefix`.
pub open spec fn all_partial_ok(constraints: Seq<Constraint>, prefix: Seq<Value>) -> bool {
    forall|c: int| 0 <= c < constraints.len() ==> #[trigger] constraints[c].partial_ok(prefix)
}

/// The digits already placed in the given cells: a board is filled cell by
/// cell in index order, so exactly the cells below `prefix.len()` hold a
/// digit.
pub open spec fn filled_digits(cells: Seq<usize>, prefix: Seq<Value>) -> Seq<Value>
    decreases cells.len(),
{
    if cells.len() == 0 {
        Seq::empty()
    } else {
        let rest = filled_digits(cells.drop_last(), prefix);
        if (cells.last() as int) < prefix.len() {
            rest.push(prefix[cells.last() as int])
        } else {
            rest
        }
    }
}

/// The digits that a full solution `solution` places in the cells that
/// `prefix` has not filled yet.
pub open spec fn unfilled_digits(cells: Seq<usize>, plen: int, solution: Seq<Value>) -> Seq<Value>
    decreases cells.len(),
{
    if cells.len() == 0 {
        Seq::empty()
    } else {
        let rest = unfilled_digits(cells.drop_last(), plen, solution);
        if (cells.last() as int) >= plen {
            rest.push(solution[cells.last() as int])
        } else {
            rest
        }
    }
}

/// There are no more filled digits than cells, and filled digits are values
/// of the prefix.
pub proof fn lemma_filled_digits_props(cells: Seq<usize>, prefix: Seq<Value>)
    ensures
        filled_digits(cells, prefix).len() <= cells.len(),
        (forall|j: int| 0 <= j < prefix.len() ==> 1 <= #[trigger] prefix[j] <= 9) ==> forall|i: int|
            0 <= i < filled_digits(cells, prefix).len() ==> 1 <= #[trigger] filled_digits(
                cells,
                prefix,
            )[i] <= 9,
    decreases cells.len(),
{
    if cells.len() > 0 {
        lemma_filled_digits_props(cells.drop_last(), prefix);
    }
}

/// When every cell is filled, the filled digits are exactly the digits of the
/// (then complete) assignment.
pub proof fn lemma_filled_digits_full(cells: Seq<usize>, prefix: Seq<Value>)
    requires
        forall|i: int| 0 <= i < cells.len() ==> (cells[i] as int) < prefix.len(),
    ensures
        filled_digits(cells, prefix) == digits_of(cells, prefix),
    decreases cells.len(),
{
    if cells.len() == 0 {
        assert(filled_digits(cells, prefix) =~= digits_of(cells, prefix));
    } else {
        lemma_filled_digits_full(cells.drop_last(), prefix);
        assert(filled_digits(cells, prefix) =~= digits_of(cells, prefix));
    }
}

/// Pushing a fresh digit keeps a digit sequence duplicate-free.
pub proof fn lemma_push_no_dup(u: Seq<Value>, x: Value)
    requires
        u.no_duplicates(),
        !u.contains(x),
    ensures
        u.push(x).no_duplicates(),
{
    assert forall|i: int, j: int|
        0 <= i < u.push(x).len() && 0 <= j < u.push(x).len() && i != j implies u.push(x)[i]
        != u.push(x)[j] by {
        if i < u.len() && j < u.len() {
        } else if j == u.len() {
            assert(u.push(x)[i] == u[i]);
        } else {
            assert(u.push(x)[j] == u[j]);
        }
    }
}

/// What a pushed sequence contains: its old elements and the new one.
pub proof fn lemma_push_contains(a0: Seq<Value>, v: Value)
    ensures
        forall|x: Value| #[trigger] a0.push(v).contains(x) <==> a0.contains(x) || x == v,
{
    assert forall|x: Value| #[trigger] a0.push(v).contains(x) implies a0.contains(x) || x == v by {
        let i = choose|i: int| 0 <= i < a0.push(v).len() && a0.push(v)[i] == x;
        if i < a0.len() {
            assert(a0[i] == x);
        }
    }
    assert forall|x: Value| a0.contains(x) || x == v implies #[trigger] a0.push(v).contains(x) by {
        if a0.contains(x) {
            let i = choose|i: int| 0 <= i < a0.len() && a0[i] == x;
            assert(a0.push(v)[i] == x);
        } else {
            assert(a0.push(v)[a0.len() as int] == x);
        }
    }
}

/// How a full solution splits over a prefix: the digits of the solution at a
/// constraint's cells are, up to order, the filled digits of the prefix plus
/// the digits at the still-unfilled cells — with matching counts and sums,
/// and, when the whole run is duplicate-free, with both parts duplicate-free
/// and disjoint.
pub proof fn lemma_split_digits(cells: Seq<usize>, prefix: Seq<Value>, solution: Seq<Value>)
    requires
        prefix.is_prefix_of(solution),
        forall|i: int| 0 <= i < cells.len() ==> (cells[i] as int) < solution.len(),
    ensures
        filled_digits(cells, prefix).len() + unfilled_digits(cells, prefix.len() as int, solution).len()
            == cells.len(),
        seq_sum(filled_digits(cells, prefix)) + seq_sum(
            unfilled_digits(cells, prefix.len() as int, solution),
        ) == seq_sum(digits_of(cells, solution)),
        forall|x: Value|
            filled_digits(cells, prefix).contains(x) ==> digits_of(cells, solution).contains(x),
        forall|x: Value|
            unfilled_digits(cells, prefix.len() as int, solution).contains(x) ==> digits_of(
                cells,
                solution,
            ).contains(x),
        digits_of(cells, solution).no_duplicates() ==> {
            &&& filled_digits(cells, prefix).no_duplicates()
            &&& unfilled_digits(cells, prefix.len() as int, solution).no_duplicates()
            &&& forall|x: Value|
                filled_digits(cells, prefix).contains(x) ==> !unfilled_digits(
                    cells,
                    prefix.len() as int,
                    solution,
                ).contains(x)
        },
    decreases cells.len(),
{
    let plen = prefix.len() as int;
    let fd = filled_digits(cells, prefix);
    let ud = unfilled_digits(cells, plen, solution);
    let all = digits_of(cells, solution);
    if cells.len() == 0 {
        assert(all =~= Seq::<Value>::empty());
    } else {
        let head = cells.drop_last();
        let c0 = cells.last() as int;
        let v = solution[c0];
        lemma_split_digits(head, prefix, solution);
        let fd0 = filled_digits(head, prefix);
        let ud0 = unfilled_digits(head, plen, solution);
        let all0 = digits_of(head, solution);
        assert(all =~= all0.push(v));
        assert(all.drop_last() =~= all0);
        assert(all.last() == v);
        assert(all == all0.push(v));
        lemma_push_contains(all0, v);
        if c0 < plen {
            assert(prefix =~= solution.subrange(0, plen));
            assert(prefix[c0] == v);
            assert(fd == fd0.push(v));
            assert(ud == ud0);
            assert(fd.drop_last() =~= fd0);
            assert(fd.last() == v);
            lemma_push_contains(fd0, v);
        } else {
            assert(ud == ud0.push(v));
            assert(fd == fd0);
            assert(ud.drop_last() =~= ud0);
            assert(ud.last() == v);
            lemma_push_contains(ud0, v);
        }
        assert forall|x: Value| fd.contains(x) implies all.contains(x) by {
            if c0 < plen {
                assert(fd0.push(v).contains(x));
                if fd0.contains(x) {
                    assert(all0.contains(x));
                }
                assert(all0.push(v).contains(x));
            } else {
                assert(fd0.contains(x));
                assert(all0.contains(x));
                assert(all0.push(v).contains(x));
            }
        }
        assert forall|x: Value| ud.contains(x) implies all.contains(x) by {
            if c0 < plen {
                assert(ud0.contains(x));
                assert(all0.contains(x));
                assert(all0.push(v).contains(x));
            } else {
                assert(ud0.push(v).contains(x));
                if ud0.contains(x) {
                    assert(all0.contains(x));
                }
                assert(all0.push(v).contains(x));
            }
        }
        if all.no_duplicates() {
            assert(all0.no_duplicates()) by {
                assert forall|i: int, j: int|
                    0 <= i < all0.len() && 0 <= j < all0.len() && i != j implies all0[i]
                    != all0[j] by {
                    assert(all[i] == all0[i]);
                    assert(all[j] == all0[j]);
                }
            }
            assert(!all0.contains(v)) by {
                if all0.contains(v) {
                    let i = choose|i: int| 0 <= i < all0.len() && all0[i] == v;
                    assert(all[i] == all[all.len() - 1]);
                }
            }
            assert(!fd0.contains(v));
            assert(!ud0.contains(v));
            if c0 < plen {
                lemma_push_no_dup(fd0, v);
                assert forall|x: Value| fd.contains(x) implies !ud.contains(x) by {
                    assert(fd0.push(v).contains(x));
                    if fd0.contains(x) {
                        assert(!ud0.contains(x));
                    } else {
                        assert(x == v);
                        assert(!ud0.contains(x));
                    }
                }
            } else {
                lemma_push_no_dup(ud0, v);
                assert forall|x: Value| fd.contains(x) implies !ud.contains(x) by {
                    assert(fd0.contains(x));
                    assert(!ud0.contains(x));
                    if ud.contains(x) {
                        assert(ud0.push(v).contains(x));
                        assert(x == v);
                        assert(!all0.contains(x));
                    }
                }
            }
        }
    }
}

/// On a completely filled board, a constraint that can still be satisfied is
/// satisfied.
pub proof fn lemma_partial_ok_full(c: Constraint, prefix: Seq<Value>, num_cells: nat)
    requires
        c.wf(num_cells),
        prefix.len() == num_cells,
        c.partial_ok(prefix),
    ensures
        c.spec_satisfied(prefix),
{
    lemma_filled_digits_full(c.cells@, prefix);
    let ds = filled_digits(c.cells@, prefix);
    assert(ds.len() == c.cells@.len());
    let t = choose|t: int|
        c.min <= t <= c.max && #[trigger] spec_reachable(
            used_of(ds),
            1,
            (c.cells@.len() - ds.len()) as nat,
            t - seq_sum(ds),
        );
    assert(spec_reachable(used_of(ds), 1, 0, t - seq_sum(ds)));
    assert(t == seq_sum(ds));
}

/// A constraint that a full solution satisfies can still be satisfied at any
/// prefix of that solution. This is the completeness side of pruning: cutting
/// a branch whose partial check fails never loses a solution.
pub proof fn lemma_solution_partial_ok(
    c: Constraint,
    prefix: Seq<Value>,
    solution: Seq<Value>,
    num_cells: nat,
)
    requires
        c.wf(num_cells),
        solution.len() == num_cells,
        forall|i: int| 0 <= i < solution.len() ==> 1 <= #[trigger] solution[i] <= 9,
        c.spec_satisfied(solution),
        prefix.is_prefix_of(solution),
    ensures
        c.partial_ok(prefix),
{
    lemma_split_digits(c.cells@, prefix, solution);
    let ds = filled_digits(c.cells@, prefix);
    let ud = unfilled_digits(c.cells@, prefix.len() as int, solution);
    let all = digits_of(c.cells@, solution);
    assert forall|i: int| 0 <= i < ud.len() implies 1 <= #[trigger] ud[i] <= 9 by {
        assert(ud.contains(ud[i]));
        assert(all.contains(ud[i]));
        let j = choose|j: int| 0 <= j < all.len() && all[j] == ud[i];
        assert(all[j] == solution[c.cells@[j] as int]);
    }
    assert forall|i: int| 0 <= i < ud.len() implies !used_of(ds)[#[trigger] ud[i] - 1] by {
        assert(ud.contains(ud[i]));
        assert(used_of(ds)[ud[i] - 1] == ds.contains((((ud[i] - 1) + 1)) as Value));
        assert(((ud[i] - 1) + 1) as Value == ud[i]);
    }
    crate::sum_table::lemma_digits_reachable(used_of(ds), 1, ud);
    let t = seq_sum(all);
    assert(seq_sum(ud) == t - seq_sum(ds));
    assert(ud.len() == (c.cells@.len() - ds.len()) as nat);
    assert(c.min <= t <= c.max);
    assert(spec_reachable(used_of(ds), 1, (c.cells@.len() - ds.len()) as nat, t - seq_sum(ds)));
}

} // verus!
