//! The abstract form of a puzzle: a number of cells and the constraints that
//! are imposed on subsets of them. The concrete arrangement of cells on a 2D
//! grid does not matter here.

use vstd::prelude::*;

verus! {

/// A digit written into a cell. Valid digits are 1 through 9.
pub type Value = u8;

/// A dense assignment of one digit per cell.
pub type Solution = Vec<Value>;

/// All solutions of a puzzle.
pub type Output = Vec<Solution>;

/// A run: a set of cells whose digits must be pairwise distinct and add up to
/// `sum`.
pub struct Constraint {
    pub cells: Vec<usize>,
    pub sum: Value,
}

/// A whole puzzle: `num_cells` cells, each referenced by constraints through
/// its index.
pub struct Input {
    pub num_cells: usize,
    pub constraints: Vec<Constraint>,
}

/// The sum of a sequence of digits.
pub open spec fn seq_sum(s: Seq<Value>) -> int
    decreases s.len(),
{
    if s.len() == 0 {
        0
    } else {
        seq_sum(s.drop_last()) + s.last()
    }
}

/// The digits that `solution` assigns to `cells`, in cell order.
pub open spec fn digits_of(cells: Seq<usize>, solution: Seq<Value>) -> Seq<Value> {
    cells.map_values(|c: usize| solution[c as int])
}

impl Constraint {
    /// A structurally valid constraint for a puzzle of `num_cells` cells:
    /// between 1 and 9 distinct cell indices, all in range, and a target sum
    /// that some run could have.
    pub open spec fn wf(self, num_cells: nat) -> bool {
        &&& 1 <= self.cells@.len() <= 9
        &&& forall|i: int| 0 <= i < self.cells@.len() ==> (self.cells@[i] as nat) < num_cells
        &&& self.cells@.no_duplicates()
        &&& 1 <= self.sum <= 45
    }

    /// The digits that `solution` assigns to this constraint's cells.
    pub open spec fn spec_digits(self, solution: Seq<Value>) -> Seq<Value> {
        digits_of(self.cells@, solution)
    }

    /// Whether `solution` satisfies this constraint: pairwise distinct digits
    /// that add up to the target.
    pub open spec fn spec_satisfied(self, solution: Seq<Value>) -> bool {
        &&& self.spec_digits(solution).no_duplicates()
        &&& seq_sum(self.spec_digits(solution)) == self.sum
    }

    /// Whether `solution` satisfies this constraint.
    pub fn is_solution(&self, solution: &Solution) -> (r: bool)
        requires
            forall|i: int| 0 <= i < self.cells@.len() ==> self.cells@[i] < solution@.len(),
            self.cells@.len() <= 9,
        ensures
            r == self.spec_satisfied(solution@),
    {
        let digits = gather_digits(&self.cells, solution);
        let distinct = all_distinct(&digits);
        let sum = digit_sum(&digits);
        distinct && sum == self.sum as u32
    }
}

/// The digits that `solution` assigns to the given cells, in cell order.
pub fn gather_digits(cells: &Vec<usize>, solution: &Solution) -> (r: Vec<Value>)
    requires
        forall|i: int| 0 <= i < cells@.len() ==> cells@[i] < solution@.len(),
    ensures
        r@ == digits_of(cells@, solution@),
{
    let mut r: Vec<Value> = Vec::new();
    let mut i: usize = 0;
    while i < cells.len()
        invariant
            i <= cells@.len(),
            forall|k: int| 0 <= k < cells@.len() ==> cells@[k] < solution@.len(),
            r@ =~= digits_of(cells@, solution@).take(i as int),
        decreases cells@.len() - i,
    {
        r.push(solution[cells[i]]);
        i += 1;
    }
    assert(r@ =~= digits_of(cells@, solution@));
    r
}

/// Whether the digits of `s` are pairwise distinct.
pub fn all_distinct(s: &Vec<Value>) -> (r: bool)
    ensures
        r == s@.no_duplicates(),
{
    let mut i: usize = 0;
    while i < s.len()
        invariant
            i <= s@.len(),
            forall|p: int, q: int| 0 <= p < q < s@.len() && p < i ==> s@[p] != s@[q],
        decreases s@.len() - i,
    {
        let mut j: usize = i + 1;
        while j < s.len()
            invariant
                i < s@.len(),
                i < j <= s@.len(),
                forall|q: int| i < q < j ==> s@[i as int] != s@[q],
            decreases s@.len() - j,
        {
            if s[i] == s[j] {
                return false;
            }
            j += 1;
        }
        i += 1;
    }
    true
}

/// The sum of the digits of `s`, as an exact 32-bit value.
pub fn digit_sum(s: &Vec<Value>) -> (r: u32)
    requires
        s@.len() <= 9,
    ensures
        r == seq_sum(s@),
{
    let mut sum: u32 = 0;
    let mut i: usize = 0;
    while i < s.len()
        invariant
            i <= s@.len() <= 9,
            sum == seq_sum(s@.take(i as int)),
            sum <= i * 255,
        decreases s@.len() - i,
    {
        proof {
            lemma_seq_sum_bounds(s@.take(i as int));
            assert(s@.take(i as int + 1).drop_last() =~= s@.take(i as int));
        }
        sum = sum + s[i] as u32;
        i += 1;
    }
    assert(s@.take(s@.len() as int) =~= s@);
    sum
}

/// A copy of an assignment.
pub fn copy_solution(prefix: &Vec<Value>) -> (r: Solution)
    ensures
        r@ == prefix@,
{
    let mut r: Vec<Value> = Vec::new();
    let mut i: usize = 0;
    while i < prefix.len()
        invariant
            i <= prefix@.len(),
            r@ == prefix@.take(i as int),
        decreases prefix@.len() - i,
    {
        r.push(prefix[i]);
        proof {
            assert(r@ =~= prefix@.take(i as int + 1));
        }
        i += 1;
    }
    proof {
        assert(prefix@.take(prefix@.len() as int) =~= prefix@);
    }
    r
}

/// The sum of a sequence of digits is never negative and never larger than
/// 255 per digit.
pub proof fn lemma_seq_sum_bounds(s: Seq<Value>)
    ensures
        0 <= seq_sum(s) <= s.len() * 255,
    decreases s.len(),
{
    if s.len() > 0 {
        lemma_seq_sum_bounds(s.drop_last());
    }
}

impl Input {
    /// A structurally valid puzzle: every constraint is well-formed for this
    /// number of cells.
    pub open spec fn wf(self) -> bool {
        forall|i: int| 0 <= i < self.constraints@.len() ==> self.constraints@[i].wf(
            self.num_cells as nat,
        )
    }

    /// Whether `solution` solves the puzzle: one digit 1..=9 per cell, and
    /// every constraint satisfied.
    pub open spec fn spec_is_solution(self, solution: Seq<Value>) -> bool {
        &&& solution.len() == self.num_cells
        &&& forall|i: int| 0 <= i < solution.len() ==> 1 <= #[trigger] solution[i] <= 9
        &&& forall|i: int| 0 <= i < self.constraints@.len() ==> self.constraints@[i].spec_satisfied(
            solution,
        )
    }

    /// Whether `solution` solves the puzzle.
    pub fn is_solution(&self, solution: &Solution) -> (r: bool)
        requires
            self.wf(),
        ensures
            r == self.spec_is_solution(solution@),
    {
        if solution.len() != self.num_cells {
            return false;
        }
        let mut i: usize = 0;
        while i < solution.len()
            invariant
                i <= solution@.len(),
                forall|k: int| 0 <= k < i ==> 1 <= #[trigger] solution@[k] <= 9,
            decreases solution@.len() - i,
        {
            let d = solution[i];
            if d < 1 || d > 9 {
                return false;
            }
            i += 1;
        }
        let mut c: usize = 0;
        while c < self.constraints.len()
            invariant
                c <= self.constraints@.len(),
                self.wf(),
                solution@.len() == self.num_cells,
                forall|k: int| 0 <= k < solution@.len() ==> 1 <= #[trigger] solution@[k] <= 9,
                forall|k: int| 0 <= k < c ==> self.constraints@[k].spec_satisfied(solution@),
            decreases self.constraints@.len() - c,
        {
            if !self.constraints[c].is_solution(solution) {
                return false;
            }
            c += 1;
        }
        true
    }

    /// Whether the puzzle itself is structurally valid. A malformed puzzle is
    /// a configuration error and is told apart from an unsatisfiable one,
    /// which simply has no solutions.
    pub fn is_valid(&self) -> (r: bool)
        ensures
            r == self.wf(),
    {
        let mut c: usize = 0;
        while c < self.constraints.len()
            invariant
                c <= self.constraints@.len(),
                forall|k: int| 0 <= k < c ==> self.constraints@[k].wf(self.num_cells as nat),
            decreases self.constraints@.len() - c,
        {
            let constraint = &self.constraints[c];
            if constraint.cells.len() < 1 || constraint.cells.len() > 9 {
                return false;
            }
            if constraint.sum < 1 || constraint.sum > 45 {
                return false;
            }
            let mut i: usize = 0;
            while i < constraint.cells.len()
                invariant
                    c < self.constraints@.len(),
                    constraint == self.constraints@[c as int],
                    i <= constraint.cells@.len(),
                    constraint.cells@.len() <= 9,
                    forall|k: int| 0 <= k < i ==> (constraint.cells@[k] as nat) < self.num_cells,
                    forall|p: int, q: int| 0 <= p < q < i ==> constraint.cells@[p]
                        != constraint.cells@[q],
                decreases constraint.cells@.len() - i,
            {
                if constraint.cells[i] >= self.num_cells {
                    assert(!self.constraints@[c as int].wf(self.num_cells as nat));
                    return false;
                }
                let mut j: usize = 0;
                while j < i
                    invariant
                        c < self.constraints@.len(),
                        constraint == self.constraints@[c as int],
                        j <= i < constraint.cells@.len(),
                        forall|q: int| 0 <= q < j ==> constraint.cells@[q]
                            != constraint.cells@[i as int],
                    decreases i - j,
                {
                    if constraint.cells[j] == constraint.cells[i] {
                        assert(!constraint.cells@.no_duplicates());
                        assert(!self.constraints@[c as int].wf(self.num_cells as nat));
                        return false;
                    }
                    j += 1;
                }
                i += 1;
            }
            c += 1;
        }
        true
    }
}


/// Digit lists with the same digits (as a multiset) have the same sum.
pub proof fn lemma_multiset_same_sum(a: Seq<Value>, b: Seq<Value>)
    requires
        a.to_multiset() == b.to_multiset(),
    ensures
        seq_sum(a) == seq_sum(b),
    decreases a.len(),
{
    broadcast use vstd::seq_lib::group_to_multiset_ensures;

    if a.len() == 0 {
        assert(b.to_multiset().len() == 0);
        assert(b.len() == 0);
    } else {
        let x = a.last();
        assert(a.drop_last().push(x) =~= a);
        assert(a.to_multiset() == a.drop_last().to_multiset().insert(x));
        assert(b.to_multiset().count(x) > 0);
        assert(b.contains(x));
        let j = choose|j: int| 0 <= j < b.len() && b[j] == x;
        assert(b.remove(j).to_multiset() =~= b.to_multiset().remove(x));
        assert(a.drop_last().to_multiset() =~= a.to_multiset().remove(x));
        lemma_multiset_same_sum(a.drop_last(), b.remove(j));
        crate::sum_table::lemma_seq_sum_remove(b, j);
    }
}

/// Digit lists with the same digits (as a multiset) are duplicate-free
/// together or not at all.
pub proof fn lemma_multiset_same_no_dup(a: Seq<Value>, b: Seq<Value>)
    requires
        a.to_multiset() == b.to_multiset(),
    ensures
        a.no_duplicates() == b.no_duplicates(),
{
    if a.no_duplicates() {
        a.lemma_multiset_has_no_duplicates();
        b.lemma_multiset_has_no_duplicates_conv();
    }
    if b.no_duplicates() {
        b.lemma_multiset_has_no_duplicates();
        a.lemma_multiset_has_no_duplicates_conv();
    }
}

} // verus!
