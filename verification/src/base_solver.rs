//! The backtracking base solver: fills cells in index order, one digit at a
//! time, and prunes a branch as soon as some constraint can no longer be
//! satisfied — decided in constant time through the sum-reachability table.
//! Its contract is exact: the output holds every solution of the puzzle, only
//! solutions, and each of them once.

use crate::game::{Solution, Value};
use crate::relaxed::{
    all_partial_ok, filled_digits, lemma_filled_digits_props, lemma_partial_ok_full,
    lemma_solution_partial_ok, spec_is_solution, Constraint,
};
use crate::sum_table::{spec_reachable, used_of, SumTable};
use vstd::prelude::*;

verus! {

/// The digits that `prefix` has already placed in the given cells.
fn collect_filled_digits(cells: &Vec<usize>, prefix: &Vec<Value>) -> (r: Vec<Value>)
    ensures
        r@ == filled_digits(cells@, prefix@),
{
    let mut r: Vec<Value> = Vec::new();
    let mut i: usize = 0;
    while i < cells.len()
        invariant
            i <= cells@.len(),
            r@ == filled_digits(cells@.take(i as int), prefix@),
        decreases cells@.len() - i,
    {
        proof {
            assert(cells@.take(i as int + 1).drop_last() =~= cells@.take(i as int));
            assert(cells@.take(i as int + 1).last() == cells@[i as int]);
        }
        let cell = cells[i];
        if cell < prefix.len() {
            let d = prefix[cell];
            r.push(d);
        }
        i += 1;
    }
    proof {
        assert(cells@.take(cells@.len() as int) =~= cells@);
    }
    r
}

/// Which digits occur in `ds`, as nine flags.
fn used_flags(ds: &Vec<Value>) -> (r: Vec<bool>)
    requires
        forall|i: int| 0 <= i < ds@.len() ==> 1 <= #[trigger] ds@[i] <= 9,
    ensures
        r@ == used_of(ds@),
        r@.len() == 9,
{
    let mut r: Vec<bool> = Vec::new();
    let mut d: usize = 0;
    while d < 9
        invariant
            d <= 9,
            r@.len() == d,
            forall|e: int| 0 <= e < d ==> !(#[trigger] r@[e]),
        decreases 9 - d,
    {
        r.push(false);
        d += 1;
    }
    proof {
        assert(r@ =~= used_of(ds@.take(0)));
    }
    let mut i: usize = 0;
    while i < ds.len()
        invariant
            i <= ds@.len(),
            r@.len() == 9,
            forall|j: int| 0 <= j < ds@.len() ==> 1 <= #[trigger] ds@[j] <= 9,
            r@ == used_of(ds@.take(i as int)),
        decreases ds@.len() - i,
    {
        let digit = ds[i];
        let ghost r0 = r@;
        r.set(digit as usize - 1, true);
        proof {
            crate::relaxed::lemma_push_contains(ds@.take(i as int), ds@[i as int]);
            assert(ds@.take(i as int + 1) =~= ds@.take(i as int).push(ds@[i as int]));
            assert(r@ =~= used_of(ds@.take(i as int + 1)));
        }
        i += 1;
    }
    proof {
        assert(ds@.take(ds@.len() as int) =~= ds@);
    }
    r
}

/// Whether `c` can still be satisfied by some completion of `prefix`.
fn check_constraint(c: &Constraint, prefix: &Vec<Value>, table: &SumTable) -> (r: bool)
    requires
        table.wf(),
        c.cells@.len() <= 9,
        forall|j: int| 0 <= j < prefix@.len() ==> 1 <= #[trigger] prefix@[j] <= 9,
    ensures
        r == c.partial_ok(prefix@),
{
    let ds = collect_filled_digits(&c.cells, prefix);
    proof {
        lemma_filled_digits_props(c.cells@, prefix@);
    }
    if !crate::game::all_distinct(&ds) {
        return false;
    }
    let sum = crate::game::digit_sum(&ds);
    proof {
        crate::game::lemma_seq_sum_bounds(ds@);
    }
    let used = used_flags(&ds);
    let k = c.cells.len() - ds.len();
    let ghost goal_k = (c.cells@.len() - ds@.len()) as nat;
    if c.min > c.max {
        proof {
            assert(!c.partial_ok(prefix@)) by {
                if c.partial_ok(prefix@) {
                    let t2 = choose|t2: int|
                        c.min <= t2 <= c.max && #[trigger] spec_reachable(
                            used_of(filled_digits(c.cells@, prefix@)),
                            1,
                            (c.cells@.len() - filled_digits(c.cells@, prefix@).len()) as nat,
                            t2 - crate::game::seq_sum(filled_digits(c.cells@, prefix@)),
                        );
                }
            }
        }
        return false;
    }
    let mut t: u32 = c.min as u32;
    while t <= c.max as u32
        invariant
            table.wf(),
            ds@ == filled_digits(c.cells@, prefix@),
            ds@.no_duplicates(),
            used@ == used_of(ds@),
            used@.len() == 9,
            ds@.len() <= c.cells@.len(),
            k == goal_k,
            goal_k == (c.cells@.len() - ds@.len()) as nat,
            k <= 9,
            sum == crate::game::seq_sum(ds@),
            sum <= 2295,
            c.min <= c.max,
            c.min <= t,
            t <= c.max as u32 + 1,
            forall|t2: int|
                c.min <= t2 < t ==> !(#[trigger] spec_reachable(
                    used_of(ds@),
                    1,
                    goal_k,
                    t2 - crate::game::seq_sum(ds@),
                )),
        decreases c.max as int + 1 - t,
    {
        if table.is_sum_reachable(&used, k, t as i32 - sum as i32) {
            proof {
                assert(c.min <= t as int <= c.max && spec_reachable(
                    used_of(filled_digits(c.cells@, prefix@)),
                    1,
                    (c.cells@.len() - filled_digits(c.cells@, prefix@).len()) as nat,
                    t as int - crate::game::seq_sum(filled_digits(c.cells@, prefix@)),
                ));
            }
            return true;
        }
        t += 1;
    }
    proof {
        assert(!c.partial_ok(prefix@)) by {
            if c.partial_ok(prefix@) {
                let t2 = choose|t2: int|
                    c.min <= t2 <= c.max && #[trigger] spec_reachable(
                        used_of(filled_digits(c.cells@, prefix@)),
                        1,
                        (c.cells@.len() - filled_digits(c.cells@, prefix@).len()) as nat,
                        t2 - crate::game::seq_sum(filled_digits(c.cells@, prefix@)),
                    );
                assert(!spec_reachable(used_of(ds@), 1, goal_k, t2 - crate::game::seq_sum(ds@)));
            }
        }
    }
    false
}

/// Whether every constraint can still be satisfied by some completion of
/// `prefix`.
fn is_possible_solution(constraints: &Vec<Constraint>, prefix: &Vec<Value>, table: &SumTable) -> (r:
    bool)
    requires
        table.wf(),
        forall|ci: int| 0 <= ci < constraints@.len() ==> (#[trigger] constraints@[ci]).cells@.len()
            <= 9,
        forall|j: int| 0 <= j < prefix@.len() ==> 1 <= #[trigger] prefix@[j] <= 9,
    ensures
        r == all_partial_ok(constraints@, prefix@),
{
    let mut ci: usize = 0;
    while ci < constraints.len()
        invariant
            table.wf(),
            ci <= constraints@.len(),
            forall|c2: int| 0 <= c2 < constraints@.len() ==> (#[trigger] constraints@[c2]).cells@.len()
                <= 9,
            forall|j: int| 0 <= j < prefix@.len() ==> 1 <= #[trigger] prefix@[j] <= 9,
            forall|c2: int| 0 <= c2 < ci ==> (#[trigger] constraints@[c2]).partial_ok(prefix@),
        decreases constraints@.len() - ci,
    {
        if !check_constraint(&constraints[ci], prefix, table) {
            return false;
        }
        ci += 1;
    }
    true
}

/// Extends `prefix` in all ways that can still lead to a solution, and
/// appends to `solutions` exactly the solutions of the puzzle that extend the
/// given prefix — each of them once.
fn solve_rec(
    num_cells: usize,
    constraints: &Vec<Constraint>,
    table: &SumTable,
    prefix: &mut Vec<Value>,
    solutions: &mut Vec<Solution>,
)
    requires
        table.wf(),
        forall|ci: int| 0 <= ci < constraints@.len() ==> (#[trigger] constraints@[ci]).wf(
            num_cells as nat,
        ),
        old(prefix)@.len() <= num_cells,
        forall|i: int| 0 <= i < old(prefix)@.len() ==> 1 <= #[trigger] old(prefix)@[i] <= 9,
        old(prefix)@.len() == num_cells ==> all_partial_ok(constraints@, old(prefix)@),
    ensures
        final(prefix)@ == old(prefix)@,
        old(solutions)@.is_prefix_of(final(solutions)@),
        forall|j: int|
            old(solutions)@.len() <= j < final(solutions)@.len()
                ==> spec_is_solution(num_cells as nat, constraints@, (#[trigger] final(solutions)@[j])@)
                && old(prefix)@.is_prefix_of(final(solutions)@[j]@),
        forall|s: Seq<Value>|
            #[trigger] spec_is_solution(num_cells as nat, constraints@, s)
                && old(prefix)@.is_prefix_of(s)
                ==> exists|j: int|
                    old(solutions)@.len() <= j < final(solutions)@.len()
                    && (#[trigger] final(solutions)@[j])@ == s,
        forall|j1: int, j2: int|
            old(solutions)@.len() <= j1 < j2 < final(solutions)@.len()
                ==> (#[trigger] final(solutions)@[j1])@ != (#[trigger] final(solutions)@[j2])@,
    decreases num_cells - old(prefix)@.len(),
{
    let ghost p0 = prefix@;
    let ghost sol0 = solutions@;
    if prefix.len() == num_cells {
        proof {
            assert forall|ci: int| 0 <= ci < constraints@.len() implies (#[trigger] constraints@[ci]).spec_satisfied(
                p0,
            ) by {
                lemma_partial_ok_full(constraints@[ci], p0, num_cells as nat);
            }
            assert(spec_is_solution(num_cells as nat, constraints@, p0));
        }
        let copy = crate::game::copy_solution(prefix);
        solutions.push(copy);
        proof {
            assert(sol0 =~= solutions@.subrange(0, sol0.len() as int));
            assert forall|s: Seq<Value>|
                #[trigger] spec_is_solution(num_cells as nat, constraints@, s) && p0.is_prefix_of(
                    s,
                ) implies exists|j: int|
                sol0.len() <= j < solutions@.len() && (#[trigger] solutions@[j])@ == s by {
                assert(s.len() == num_cells);
                assert(p0 =~= s.subrange(0, p0.len() as int));
                assert(s =~= p0);
                assert((solutions@[sol0.len() as int])@ == s);
            }
        }
        return;
    }
    let ghost idx = p0.len() as int;
    let mut d: Value = 1;
    while d <= 9
        invariant
            table.wf(),
            forall|ci: int| 0 <= ci < constraints@.len() ==> (#[trigger] constraints@[ci]).wf(
                num_cells as nat,
            ),
            1 <= d <= 10,
            p0 == old(prefix)@,
            sol0 == old(solutions)@,
            prefix@ == p0,
            idx == p0.len() as int,
            p0.len() < num_cells,
            forall|i: int| 0 <= i < p0.len() ==> 1 <= #[trigger] p0[i] <= 9,
            sol0.is_prefix_of(solutions@),
            forall|j: int|
                sol0.len() <= j < solutions@.len() ==> spec_is_solution(
                    num_cells as nat,
                    constraints@,
                    (#[trigger] solutions@[j])@,
                ) && p0.is_prefix_of(solutions@[j]@) && solutions@[j]@[idx] < d,
            forall|s: Seq<Value>|
                #[trigger] spec_is_solution(num_cells as nat, constraints@, s) && p0.is_prefix_of(
                    s,
                ) && s[idx] < d ==> exists|j: int|
                    sol0.len() <= j < solutions@.len() && (#[trigger] solutions@[j])@ == s,
            forall|j1: int, j2: int|
                sol0.len() <= j1 < j2 < solutions@.len() ==> (#[trigger] solutions@[j1])@
                    != (#[trigger] solutions@[j2])@,
        decreases 10 - d,
    {
        prefix.push(d);
        let ghost p1 = prefix@;
        let ghost mid = solutions@;
        proof {
            assert(p1 == p0.push(d));
            assert(p0.is_prefix_of(p1)) by {
                assert(p0 =~= p1.subrange(0, p0.len() as int));
            }
        }
        let ok = is_possible_solution(constraints, prefix, table);
        if ok {
            solve_rec(num_cells, constraints, table, prefix, solutions);
        } else {
            proof {
                assert forall|s: Seq<Value>|
                    #[trigger] spec_is_solution(num_cells as nat, constraints@, s)
                        && p1.is_prefix_of(s) implies false by {
                    let ci = choose|ci: int|
                        0 <= ci < constraints@.len() && !(#[trigger] constraints@[ci]).partial_ok(
                            p1,
                        );
                    lemma_solution_partial_ok(constraints@[ci], p1, s, num_cells as nat);
                }
            }
        }
        prefix.pop();
        proof {
            assert(p0.push(d).drop_last() =~= p0);
            assert(prefix@ == p0);
            assert(sol0.is_prefix_of(solutions@)) by {
                assert(sol0 =~= mid.subrange(0, sol0.len() as int));
                assert(mid =~= solutions@.subrange(0, mid.len() as int));
                assert(sol0 =~= solutions@.subrange(0, sol0.len() as int));
            }
            assert forall|j: int| 0 <= j < mid.len() implies solutions@[j] == mid[j] by {
                assert(mid =~= solutions@.subrange(0, mid.len() as int));
                assert(mid[j] == solutions@.subrange(0, mid.len() as int)[j]);
            }
            // every solution that extends p0 with digit d at idx extends p1
            assert forall|s: Seq<Value>|
                #[trigger] spec_is_solution(num_cells as nat, constraints@, s) && p0.is_prefix_of(
                    s,
                ) && s[idx] == d implies p1.is_prefix_of(s) by {
                assert(p0 =~= s.subrange(0, p0.len() as int));
                assert(p1 =~= s.subrange(0, p1.len() as int));
            }
            // newly appended solutions carry digit d at idx and still extend p0
            assert forall|j: int|
                mid.len() <= j < solutions@.len() implies (#[trigger] solutions@[j])@[idx] == d
                    && p0.is_prefix_of(solutions@[j]@) by {
                assert(p1.is_prefix_of(solutions@[j]@));
                assert(p1 =~= solutions@[j]@.subrange(0, p1.len() as int));
                assert(solutions@[j]@[idx] == p1[idx]);
                assert(p0 =~= solutions@[j]@.subrange(0, p0.len() as int));
            }
            assert forall|j: int|
                sol0.len() <= j < solutions@.len() implies spec_is_solution(
                    num_cells as nat,
                    constraints@,
                    (#[trigger] solutions@[j])@,
                ) && p0.is_prefix_of(solutions@[j]@) && solutions@[j]@[idx] < d + 1 by {
                if j < mid.len() {
                    assert(solutions@[j] == mid[j]);
                    assert(spec_is_solution(num_cells as nat, constraints@, mid[j]@));
                    assert(mid[j]@[idx] < d);
                }
            }
            assert forall|s: Seq<Value>|
                #[trigger] spec_is_solution(num_cells as nat, constraints@, s) && p0.is_prefix_of(
                    s,
                ) && s[idx] < d + 1 implies exists|j: int|
                sol0.len() <= j < solutions@.len() && (#[trigger] solutions@[j])@ == s by {
                if s[idx] < d {
                    let j = choose|j: int|
                        sol0.len() <= j < mid.len() && (#[trigger] mid[j])@ == s;
                    assert(solutions@[j] == mid[j]);
                    assert((solutions@[j])@ == s);
                } else {
                    assert(s[idx] == d);
                    assert(p1.is_prefix_of(s));
                    let j = choose|j: int|
                        mid.len() <= j < solutions@.len() && (#[trigger] solutions@[j])@ == s;
                    assert((solutions@[j])@ == s);
                }
            }
            assert forall|j1: int, j2: int|
                sol0.len() <= j1 < j2 < solutions@.len() implies (#[trigger] solutions@[j1])@
                    != (#[trigger] solutions@[j2])@ by {
                if j2 < mid.len() {
                    assert(solutions@[j1] == mid[j1]);
                    assert(solutions@[j2] == mid[j2]);
                } else if j1 < mid.len() {
                    assert(solutions@[j1] == mid[j1]);
                    assert(solutions@[j1]@[idx] < d);
                    assert(solutions@[j2]@[idx] == d);
                }
            }
        }
        d += 1;
    }
    proof {
        assert forall|s: Seq<Value>|
            #[trigger] spec_is_solution(num_cells as nat, constraints@, s) && p0.is_prefix_of(
                s,
            ) implies exists|j: int|
            sol0.len() <= j < solutions@.len() && (#[trigger] solutions@[j])@ == s by {
            assert(0 <= idx < s.len());
            assert(1 <= s[idx] <= 9);
        }
    }
}

/// Solves a puzzle given as relaxed constraints: the result holds exactly the
/// assignments that satisfy every constraint, each exactly once.
pub fn solve(num_cells: usize, constraints: &Vec<Constraint>, table: &SumTable) -> (r: Vec<
    Solution,
>)
    requires
        table.wf(),
        forall|ci: int| 0 <= ci < constraints@.len() ==> (#[trigger] constraints@[ci]).wf(
            num_cells as nat,
        ),
    ensures
        forall|j: int|
            0 <= j < r@.len()
                ==> spec_is_solution(num_cells as nat, constraints@, (#[trigger] r@[j])@),
        forall|s: Seq<Value>|
            #[trigger] spec_is_solution(num_cells as nat, constraints@, s) ==> exists|j: int|
                0 <= j < r@.len() && (#[trigger] r@[j])@ == s,
        forall|j1: int, j2: int|
            0 <= j1 < j2 < r@.len() ==> (#[trigger] r@[j1])@ != (#[trigger] r@[j2])@,
{
    let mut prefix: Vec<Value> = Vec::new();
    let mut solutions: Vec<Solution> = Vec::new();
    proof {
        if num_cells == 0 {
            assert forall|ci: int|
                0 <= ci < constraints@.len() implies (#[trigger] constraints@[ci]).partial_ok(
                prefix@,
            ) by {
                assert(constraints@[ci].wf(0));
                assert((constraints@[ci].cells@[0] as nat) < 0);
            }
        }
        assert forall|s: Seq<Value>| true implies prefix@.is_prefix_of(s) by {
            assert(prefix@ =~= s.subrange(0, 0));
        }
    }
    solve_rec(num_cells, constraints, table, &mut prefix, &mut solutions);
    solutions
}

} // verus!
