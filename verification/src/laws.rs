//! Global laws of the solvers, proved once from their contracts. Each law is
//! stated for arbitrary outputs that meet a solver's contract, so it holds of
//! every call.

use crate::game::{seq_sum, Input, Solution, Value};
use vstd::prelude::*;

verus! {

/// Whether some entry of `out` is the assignment `s`.
pub open spec fn output_contains(out: Seq<Solution>, s: Seq<Value>) -> bool {
    exists|j: int| 0 <= j < out.len() && (#[trigger] out[j])@ == s
}

/// What the direct solver promises of its output: only solutions, every
/// solution, and no repeated entry.
pub open spec fn canonical_output(input: Input, out: Seq<Solution>) -> bool {
    &&& forall|j: int| 0 <= j < out.len() ==> input.spec_is_solution((#[trigger] out[j])@)
    &&& forall|s: Seq<Value>|
        #[trigger] input.spec_is_solution(s) ==> exists|j: int|
            0 <= j < out.len() && (#[trigger] out[j])@ == s
    &&& forall|j1: int, j2: int| 0 <= j1 < j2 < out.len() ==> (#[trigger] out[j1])@ != (
    #[trigger] out[j2])@
}

/// Idempotence, and the differential oracle: any two canonical outputs for
/// the same puzzle hold the same solution set. Both solvers ensure
/// `canonical_output`, so solving twice — or solving once with each solver —
/// yields the same solutions up to order.
pub proof fn lemma_solve_idempotent(input: Input, a: Seq<Solution>, b: Seq<Solution>)
    requires
        canonical_output(input, a),
        canonical_output(input, b),
    ensures
        forall|s: Seq<Value>| #[trigger] output_contains(a, s) <==> #[trigger] output_contains(
            b,
            s,
        ),
{
    assert forall|s: Seq<Value>| #[trigger] output_contains(a, s) implies output_contains(
        b,
        s,
    ) by {
        let j = choose|j: int| 0 <= j < a.len() && (#[trigger] a[j])@ == s;
        assert(input.spec_is_solution(s));
    }
    assert forall|s: Seq<Value>| #[trigger] output_contains(b, s) implies output_contains(
        a,
        s,
    ) by {
        let j = choose|j: int| 0 <= j < b.len() && (#[trigger] b[j])@ == s;
        assert(input.spec_is_solution(s));
    }
}

/// The differential oracle: the divide-and-conquer solver and the direct
/// solver produce the same solution set. Both ensure `canonical_output`, and
/// canonical outputs for one puzzle agree as sets.
pub proof fn lemma_divide_matches_direct(input: Input, lazy: Seq<Solution>, direct: Seq<Solution>)
    requires
        canonical_output(input, lazy),
        canonical_output(input, direct),
    ensures
        forall|s: Seq<Value>| #[trigger] output_contains(lazy, s) <==> #[trigger] output_contains(
            direct,
            s,
        ),
{
    lemma_solve_idempotent(input, lazy, direct);
}

/// Boundary: a puzzle with no cells and no constraints has exactly one
/// solution, the empty assignment.
pub proof fn lemma_empty_puzzle_one_solution(input: Input, out: Seq<Solution>)
    requires
        input.num_cells == 0,
        input.constraints@.len() == 0,
        canonical_output(input, out),
    ensures
        out.len() == 1,
        out[0]@ == Seq::<Value>::empty(),
{
    let empty = Seq::<Value>::empty();
    assert(input.spec_is_solution(empty));
    let j = choose|j: int| 0 <= j < out.len() && (#[trigger] out[j])@ == empty;
    assert(out.len() >= 1);
    assert forall|k: int| 0 <= k < out.len() implies (#[trigger] out[k])@ == empty by {
        assert(input.spec_is_solution(out[k]@));
        assert(out[k]@.len() == 0);
        assert(out[k]@ =~= empty);
    }
    if out.len() > 1 {
        assert(out[0]@ != out[1]@);
    }
}

/// Boundary: a constraint over a single cell whose target is larger than any
/// digit makes the puzzle unsatisfiable — the output is empty, not an error.
pub proof fn lemma_single_cell_too_large_unsat(input: Input, out: Seq<Solution>, c: int)
    requires
        input.wf(),
        0 <= c < input.constraints@.len(),
        input.constraints@[c].cells@.len() == 1,
        input.constraints@[c].sum > 9,
        forall|j: int| 0 <= j < out.len() ==> input.spec_is_solution((#[trigger] out[j])@),
    ensures
        out.len() == 0,
{
    if out.len() > 0 {
        let s = out[0]@;
        assert(input.spec_is_solution(s));
        let con = input.constraints@[c];
        assert(con.spec_satisfied(s));
        let ds = con.spec_digits(s);
        assert(ds.len() == 1);
        assert(ds[0] == s[con.cells@[0] as int]);
        assert(ds.drop_last() =~= Seq::<Value>::empty());
        assert(seq_sum(Seq::<Value>::empty()) == 0);
        assert(seq_sum(ds) == ds[0]);
        assert(input.constraints@[c].wf(input.num_cells as nat));
        assert((con.cells@[0] as nat) < input.num_cells);
        assert(1 <= s[con.cells@[0] as int] <= 9);
    }
}

} // verus!
