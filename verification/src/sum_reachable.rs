//! The direct solver: runs the backtracking base solver on the whole puzzle.
//! Its contract is exact — the output holds every solution, only solutions,
//! and each of them once — so it also serves as the reference against which
//! the divide-and-conquer solver can be checked.

use crate::game::{digits_of, Input, Output, Value};
use crate::relaxed;
use crate::sum_table::calculate_sum_table;
use vstd::prelude::*;

verus! {

/// An exact-target constraint, as a ranged constraint with a single-point
/// range.
pub fn to_relaxed(c: &crate::game::Constraint) -> (r: relaxed::Constraint)
    ensures
        r.cells@ == c.cells@,
        r.min == c.sum,
        r.max == c.sum,
{
    let mut cells: Vec<usize> = Vec::new();
    let mut i: usize = 0;
    while i < c.cells.len()
        invariant
            i <= c.cells@.len(),
            cells@ == c.cells@.take(i as int),
        decreases c.cells@.len() - i,
    {
        cells.push(c.cells[i]);
        proof {
            assert(cells@ =~= c.cells@.take(i as int + 1));
        }
        i += 1;
    }
    proof {
        assert(c.cells@.take(c.cells@.len() as int) =~= c.cells@);
    }
    relaxed::Constraint { cells, min: c.sum, max: c.sum }
}

/// All of a puzzle's constraints in ranged form.
pub fn relax_input(input: &Input) -> (r: Vec<relaxed::Constraint>)
    ensures
        r@.len() == input.constraints@.len(),
        forall|i: int|
            0 <= i < r@.len() ==> (#[trigger] r@[i]).cells@ == input.constraints@[i].cells@
                && r@[i].min == input.constraints@[i].sum && r@[i].max
                == input.constraints@[i].sum,
{
    let mut r: Vec<relaxed::Constraint> = Vec::new();
    let mut i: usize = 0;
    while i < input.constraints.len()
        invariant
            i <= input.constraints@.len(),
            r@.len() == i,
            forall|k: int|
                0 <= k < i ==> (#[trigger] r@[k]).cells@ == input.constraints@[k].cells@
                    && r@[k].min == input.constraints@[k].sum && r@[k].max
                    == input.constraints@[k].sum,
        decreases input.constraints@.len() - i,
    {
        let rc = to_relaxed(&input.constraints[i]);
        r.push(rc);
        i += 1;
    }
    r
}

/// A set of single-point ranged constraints is satisfied by exactly the
/// solutions of the original puzzle.
pub proof fn lemma_relaxed_equiv(input: Input, rcs: Seq<relaxed::Constraint>, s: Seq<Value>)
    requires
        rcs.len() == input.constraints@.len(),
        forall|i: int|
            0 <= i < rcs.len() ==> (#[trigger] rcs[i]).cells@ == input.constraints@[i].cells@
                && rcs[i].min == input.constraints@[i].sum && rcs[i].max
                == input.constraints@[i].sum,
    ensures
        relaxed::spec_is_solution(input.num_cells as nat, rcs, s) == input.spec_is_solution(s),
{
    assert forall|c: int| 0 <= c < rcs.len() implies ((#[trigger] rcs[c]).spec_satisfied(s)
        == input.constraints@[c].spec_satisfied(s)) by {
        assert(digits_of(rcs[c].cells@, s) == digits_of(input.constraints@[c].cells@, s));
    }
    if relaxed::spec_is_solution(input.num_cells as nat, rcs, s) {
        assert forall|c: int|
            0 <= c < input.constraints@.len() implies (#[trigger] input.constraints@[c]).spec_satisfied(
            s,
        ) by {
            assert(rcs[c].spec_satisfied(s));
        }
    }
    if input.spec_is_solution(s) {
        assert forall|c: int| 0 <= c < rcs.len() implies (#[trigger] rcs[c]).spec_satisfied(s) by {
            assert(input.constraints@[c].spec_satisfied(s));
        }
    }
}

/// Ranged constraints derived from a well-formed puzzle are well-formed.
pub proof fn lemma_relaxed_wf(input: Input, rcs: Seq<relaxed::Constraint>)
    requires
        input.wf(),
        rcs.len() == input.constraints@.len(),
        forall|i: int|
            0 <= i < rcs.len() ==> (#[trigger] rcs[i]).cells@ == input.constraints@[i].cells@,
    ensures
        forall|i: int| 0 <= i < rcs.len() ==> (#[trigger] rcs[i]).wf(input.num_cells as nat),
{
    assert forall|i: int| 0 <= i < rcs.len() implies (#[trigger] rcs[i]).wf(
        input.num_cells as nat,
    ) by {
        assert(input.constraints@[i].wf(input.num_cells as nat));
        assert(rcs[i].cells@ == input.constraints@[i].cells@);
    }
}

/// Solves the puzzle by direct backtracking: the result holds exactly its
/// solutions, each exactly once.
pub fn solve(input: &Input) -> (r: Output)
    requires
        input.wf(),
    ensures
        forall|j: int| 0 <= j < r@.len() ==> input.spec_is_solution((#[trigger] r@[j])@),
        forall|s: Seq<Value>|
            #[trigger] input.spec_is_solution(s) ==> exists|j: int|
                0 <= j < r@.len() && (#[trigger] r@[j])@ == s,
        forall|j1: int, j2: int|
            0 <= j1 < j2 < r@.len() ==> (#[trigger] r@[j1])@ != (#[trigger] r@[j2])@,
        crate::laws::canonical_output(*input, r@),
{
    let table = calculate_sum_table();
    let constraints = relax_input(input);
    proof {
        lemma_relaxed_wf(*input, constraints@);
    }
    let solutions = crate::base_solver::solve(input.num_cells, &constraints, &table);
    proof {
        assert forall|j: int| 0 <= j < solutions@.len() implies input.spec_is_solution(
            (#[trigger] solutions@[j])@,
        ) by {
            lemma_relaxed_equiv(*input, constraints@, solutions@[j]@);
        }
        assert forall|s: Seq<Value>| #[trigger] input.spec_is_solution(s) implies exists|j: int|
            0 <= j < solutions@.len() && (#[trigger] solutions@[j])@ == s by {
            lemma_relaxed_equiv(*input, constraints@, s);
            assert(relaxed::spec_is_solution(input.num_cells as nat, constraints@, s));
        }
    }
    solutions
}

} // verus!
