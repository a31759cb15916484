//! The divide-and-conquer solver: split the puzzle in two weakly coupled
//! halves, solve each half recursively, and recombine the halves' solution
//! sets lazily — grouped by the values they give to the connecting
//! constraints, so that compatible groups are paired without enumerating the
//! cross product.

use crate::game::{copy_solution, gather_digits, seq_sum, Input, Output, Solution, Value};
use crate::quasi::{
    count_color, lemma_count_color_total, lemma_interleave_len, lemma_product_sols_contains,
    qlen_ok, qsols, Color, QuasiSolution,
};
use crate::relaxed::Constraint;
use crate::split::{
    holds_projection, is_projection, lemma_project_cells_props, lemma_project_digits,
    lemma_translated_constraint_satisfied, listed_in, monochromatic, project_cells,
    projection_listed, same_constraint, split, sublist_of, translate_constraint,
};
use crate::sum_table::{calculate_sum_table, SumTable};
use vstd::prelude::*;

verus! {

/// A group key: for each connecting constraint, the digits a solution puts
/// into its cells, in cell order.
pub type Key = Vec<Vec<Value>>;

/// The digit sequences a key holds.
pub open spec fn key_view(key: Seq<Vec<Value>>) -> Seq<Seq<Value>> {
    key.map_values(|v: Vec<Value>| v@)
}

/// Whether cells name valid positions on a board of `n` cells.
pub open spec fn cells_in_range(cells: Seq<usize>, n: nat) -> bool {
    forall|i: int| 0 <= i < cells.len() ==> (#[trigger] cells[i] as nat) < n
}

/// What the solver assumes of a list of connecting constraints: each has at
/// most nine distinct cells, all on the current board. Their sum range plays
/// no role in grouping.
pub open spec fn conn_wf(connecting: Seq<Constraint>, num_cells: nat) -> bool {
    forall|k: int|
        0 <= k < connecting.len() ==> (#[trigger] connecting[k]).cells@.len() <= 9
            && connecting[k].cells@.no_duplicates() && cells_in_range(
            connecting[k].cells@,
            num_cells,
        )
}

/// A well-formed key: one digit list per connecting constraint, as long as
/// that constraint's cell list, all digits 1 through 9.
pub open spec fn key_wf(key: Seq<Vec<Value>>, connecting: Seq<Constraint>) -> bool {
    &&& key.len() == connecting.len()
    &&& forall|k: int|
        0 <= k < key.len() ==> (#[trigger] key[k])@.len() == connecting[k].cells@.len()
    &&& forall|k: int, b: int|
        0 <= k < key.len() && 0 <= b < key[k]@.len() ==> 1 <= #[trigger] key[k]@[b] <= 9
}

/// A well-formed group value: an internally consistent quasi-solution whose
/// solutions all assign one digit to each of the board's cells.
pub open spec fn group_wf(q: QuasiSolution, num_cells: nat) -> bool {
    &&& qlen_ok(q)
    &&& forall|s: Seq<Value>| #[trigger] qsols(q).contains(s) ==> s.len() == num_cells
}

/// All groups carry well-formed keys and well-formed quasi-solutions.
pub open spec fn groups_wf(
    groups: Seq<(Key, QuasiSolution)>,
    connecting: Seq<Constraint>,
    num_cells: nat,
) -> bool {
    forall|g: int|
        0 <= g < groups.len() ==> key_wf((#[trigger] groups[g]).0@, connecting) && group_wf(
            groups[g].1,
            num_cells,
        )
}

/// Whether the key names, for every connecting constraint, exactly the
/// digits `t` puts into that constraint's cells (as a multiset: a product
/// key concatenates the two halves' digits, which reorders them).
pub open spec fn key_matches(key: Seq<Vec<Value>>, connecting: Seq<Constraint>, t: Seq<Value>) -> bool {
    forall|k: int|
        0 <= k < key.len() ==> (#[trigger] key[k])@.to_multiset() == crate::game::digits_of(
            connecting[k].cells@,
            t,
        ).to_multiset()
}

/// Whether some group's tree stands for the assignment `s`.
pub open spec fn covered(groups: Seq<(Key, QuasiSolution)>, s: Seq<Value>) -> bool {
    exists|g: int| 0 <= g < groups.len() && qsols((#[trigger] groups[g]).1).contains(s)
}

/// Whether some group among the first `upto` stands for the assignment `s`.
pub open spec fn found_below(groups: Seq<(Key, QuasiSolution)>, upto: int, s: Seq<Value>) -> bool {
    exists|g: int| 0 <= g < upto && g < groups.len() && qsols((#[trigger] groups[g]).1).contains(s)
}

/// Every group's key names the connecting digits of every assignment the
/// group stands for.
pub open spec fn groups_keyed(groups: Seq<(Key, QuasiSolution)>, connecting: Seq<Constraint>) -> bool {
    forall|g: int, t: Seq<Value>|
        0 <= g < groups.len() && #[trigger] qsols(groups[g].1).contains(t) ==> key_matches(
            groups[g].0@,
            connecting,
            t,
        )
}

/// Every assignment any group stands for solves the sub-puzzle.
pub open spec fn groups_sound(
    groups: Seq<(Key, QuasiSolution)>,
    all_constraints: Seq<Constraint>,
    num_cells: nat,
) -> bool {
    forall|g: int, t: Seq<Value>|
        0 <= g < groups.len() && #[trigger] qsols(groups[g].1).contains(t)
            ==> crate::relaxed::spec_is_solution(num_cells, all_constraints, t)
}

/// No two groups share a key.
pub open spec fn keys_distinct(groups: Seq<(Key, QuasiSolution)>) -> bool {
    forall|g1: int, g2: int|
        0 <= g1 < g2 < groups.len() ==> key_view((#[trigger] groups[g1]).0@) != key_view(
            (#[trigger] groups[g2]).0@,
        )
}

/// A half of a solution solves that half's puzzle: the restriction satisfies
/// every projected constraint.
pub proof fn lemma_restrict_is_solution(
    all_constraints: Seq<Constraint>,
    half: Seq<Constraint>,
    colors: Seq<Color>,
    col: Color,
    s: Seq<Value>,
)
    requires
        forall|k: int| 0 <= k < all_constraints.len() ==> (#[trigger] all_constraints[k]).wf(
            colors.len() as nat,
        ),
        crate::relaxed::spec_is_solution(colors.len() as nat, all_constraints, s),
        forall|k: int|
            0 <= k < half.len() ==> projection_listed(#[trigger] half[k], all_constraints, colors, col),
    ensures
        crate::relaxed::spec_is_solution(
            count_color(colors, col),
            half,
            crate::quasi::restrict(colors, col, s),
        ),
{
    let rs = crate::quasi::restrict(colors, col, s);
    crate::quasi::lemma_restrict_len(colors, col, s);
    crate::quasi::lemma_restrict_range(colors, col, s);
    assert forall|k: int| 0 <= k < half.len() implies (#[trigger] half[k]).spec_satisfied(rs) by {
        let j = choose|j: int|
            0 <= j < all_constraints.len() && is_projection(
                half[k],
                #[trigger] all_constraints[j],
                colors,
                col,
            );
        assert(all_constraints[j].spec_satisfied(s));
        lemma_translated_constraint_satisfied(all_constraints[j], half[k], colors, col, s);
    }
}

/// Whether two digit lists are equal.
fn values_equal(a: &Vec<Value>, b: &Vec<Value>) -> (r: bool)
    ensures
        r == (a@ == b@),
{
    if a.len() != b.len() {
        proof {
            assert(a@ != b@);
        }
        return false;
    }
    let mut i: usize = 0;
    while i < a.len()
        invariant
            a@.len() == b@.len(),
            i <= a@.len(),
            forall|j: int| 0 <= j < i ==> a@[j] == #[trigger] b@[j],
        decreases a@.len() - i,
    {
        if a[i] != b[i] {
            return false;
        }
        i += 1;
    }
    proof {
        assert(a@ =~= b@);
    }
    true
}

/// Whether two keys hold the same digit lists.
fn keys_equal(a: &Key, b: &Key) -> (r: bool)
    ensures
        r == (key_view(a@) == key_view(b@)),
{
    if a.len() != b.len() {
        proof {
            assert(key_view(a@).len() != key_view(b@).len());
        }
        return false;
    }
    let mut k: usize = 0;
    while k < a.len()
        invariant
            a@.len() == b@.len(),
            k <= a@.len(),
            forall|j: int| 0 <= j < k ==> (#[trigger] a@[j])@ == b@[j]@,
        decreases a@.len() - k,
    {
        if !values_equal(&a[k], &b[k]) {
            proof {
                assert(key_view(a@)[k as int] != key_view(b@)[k as int]);
            }
            return false;
        }
        k += 1;
    }
    proof {
        assert(key_view(a@) =~= key_view(b@));
    }
    true
}

/// The two digit lists, one after the other.
pub fn add_slices(a: &Vec<Value>, b: &Vec<Value>) -> (r: Vec<Value>)
    ensures
        r@ == a@ + b@,
{
    let mut r: Vec<Value> = Vec::new();
    let mut i: usize = 0;
    while i < a.len()
        invariant
            i <= a@.len(),
            r@ == a@.take(i as int),
        decreases a@.len() - i,
    {
        r.push(a[i]);
        proof {
            assert(r@ =~= a@.take(i as int + 1));
        }
        i += 1;
    }
    let mut j: usize = 0;
    while j < b.len()
        invariant
            j <= b@.len(),
            r@ == a@.take(a@.len() as int) + b@.take(j as int),
        decreases b@.len() - j,
    {
        r.push(b[j]);
        proof {
            assert(r@ =~= a@.take(a@.len() as int) + b@.take(j as int + 1));
        }
        j += 1;
    }
    proof {
        assert(a@.take(a@.len() as int) + b@.take(b@.len() as int) =~= a@ + b@);
    }
    r
}

/// Whether the digits are pairwise distinct with a sum inside `min..=max`.
pub fn do_values_satisfy_sum(values: &Vec<Value>, min: Value, max: Value) -> (r: bool)
    requires
        forall|i: int| 0 <= i < values@.len() ==> 1 <= #[trigger] values@[i] <= 9,
        values@.len() <= 9,
    ensures
        r == (values@.no_duplicates() && min <= seq_sum(values@) <= max),
{
    let distinct = crate::game::all_distinct(values);
    let sum = crate::game::digit_sum(values);
    distinct && min as u32 <= sum && sum <= max as u32
}

/// Adds one keyed quasi-solution to the groups, merging it with an existing
/// group under the same key into a union node. No assignment is lost, no key
/// repeats, and every group keeps naming its assignments' connecting digits.
fn insert_group(
    groups: &mut Vec<(Key, QuasiSolution)>,
    key: Key,
    q: QuasiSolution,
    Ghost(connecting): Ghost<Seq<Constraint>>,
    Ghost(all_constraints): Ghost<Seq<Constraint>>,
    Ghost(num_cells): Ghost<nat>,
)
    requires
        groups_wf(old(groups)@, connecting, num_cells),
        groups_keyed(old(groups)@, connecting),
        groups_sound(old(groups)@, all_constraints, num_cells),
        keys_distinct(old(groups)@),
        key_wf(key@, connecting),
        group_wf(q, num_cells),
        forall|t: Seq<Value>| #[trigger] qsols(q).contains(t) ==> key_matches(key@, connecting, t),
        forall|t: Seq<Value>| #[trigger] qsols(q).contains(t)
            ==> crate::relaxed::spec_is_solution(num_cells, all_constraints, t),
    ensures
        groups_wf(final(groups)@, connecting, num_cells),
        groups_keyed(final(groups)@, connecting),
        groups_sound(final(groups)@, all_constraints, num_cells),
        keys_distinct(final(groups)@),
        forall|s: Seq<Value>| #[trigger] covered(old(groups)@, s) ==> covered(final(groups)@, s),
        forall|s: Seq<Value>| #[trigger] qsols(q).contains(s) ==> covered(final(groups)@, s),
{
    let mut g: usize = 0;
    let n = groups.len();
    while g < n
        invariant
            groups@ == old(groups)@,
            groups_wf(groups@, connecting, num_cells),
            groups_keyed(groups@, connecting),
            groups_sound(groups@, all_constraints, num_cells),
            keys_distinct(groups@),
            key_wf(key@, connecting),
            group_wf(q, num_cells),
            forall|t: Seq<Value>| #[trigger] qsols(q).contains(t) ==> key_matches(
                key@,
                connecting,
                t,
            ),
            forall|t: Seq<Value>| #[trigger] qsols(q).contains(t)
                ==> crate::relaxed::spec_is_solution(num_cells, all_constraints, t),
            n == groups@.len(),
            g <= n,
            forall|g2: int|
                0 <= g2 < g ==> key_view((#[trigger] groups@[g2]).0@) != key_view(key@),
        decreases n - g,
    {
        if keys_equal(&groups[g].0, &key) {
            let ghost before = groups@;
            let (old_key, old_q) = groups.remove(g);
            proof {
                assert(group_wf(old_q, num_cells));
                assert forall|j: int|
                    0 <= j < groups@.len() implies groups@[j] == if j < g {
                    before[j]
                } else {
                    before[j + 1]
                } by {}
            }
            let mut children: Vec<QuasiSolution> = Vec::new();
            children.push(q);
            children.push(old_q);
            proof {
                assert(qlen_ok(children@[0]) && qlen_ok(children@[1]));
                assert(children@.len() == 2);
                assert(children@.drop_first().drop_first() =~= Seq::<QuasiSolution>::empty());
                assert(crate::quasi::plus_sols(children@.drop_first().drop_first()) =~= Seq::<
                    Seq<Value>,
                >::empty());
                assert(children@.drop_first()[0] == children@[1]);
                assert(crate::quasi::plus_sols(children@.drop_first()) == qsols(
                    children@.drop_first().first(),
                ) + crate::quasi::plus_sols(children@.drop_first().drop_first()));
                assert(crate::quasi::plus_sols(children@) == qsols(children@[0]) + (qsols(
                    children@[1],
                ) + crate::quasi::plus_sols(children@.drop_first().drop_first())));
            }
            let merged = QuasiSolution::Plus(children);
            proof {
                assert(qsols(merged) =~= qsols(q) + qsols(old_q));
                assert forall|s: Seq<Value>| #[trigger] qsols(merged).contains(s) implies s.len()
                    == num_cells && (qsols(q).contains(s) || qsols(old_q).contains(s)) by {
                    let p = choose|p: int| 0 <= p < qsols(merged).len() && qsols(merged)[p] == s;
                    if p < qsols(q).len() {
                        assert(qsols(q).contains(s));
                    } else {
                        assert(qsols(old_q)[p - qsols(q).len()] == s);
                        assert(qsols(old_q).contains(s));
                    }
                }
                assert forall|s: Seq<Value>| #[trigger] qsols(q).contains(s) implies qsols(
                    merged,
                ).contains(s) by {
                    let p = choose|p: int| 0 <= p < qsols(q).len() && qsols(q)[p] == s;
                    assert(qsols(merged)[p] == s);
                }
                assert forall|s: Seq<Value>| #[trigger] qsols(old_q).contains(s) implies qsols(
                    merged,
                ).contains(s) by {
                    let p = choose|p: int| 0 <= p < qsols(old_q).len() && qsols(old_q)[p] == s;
                    assert(qsols(merged)[qsols(q).len() + p] == s);
                }
                assert(group_wf(merged, num_cells));
                assert forall|t: Seq<Value>| #[trigger] qsols(merged).contains(
                    t,
                ) implies crate::relaxed::spec_is_solution(num_cells, all_constraints, t) by {
                    if !qsols(q).contains(t) {
                        assert(qsols(old_q).contains(t));
                        assert(qsols(before[g as int].1).contains(t));
                    }
                }
                // the merged group keeps naming its assignments' digits: the
                // old group's key holds the same digit lists as the new key
                assert forall|t: Seq<Value>| #[trigger] qsols(merged).contains(t) implies key_matches(
                    key@,
                    connecting,
                    t,
                ) by {
                    if qsols(q).contains(t) {
                    } else {
                        assert(qsols(old_q).contains(t));
                        assert(key_matches(before[g as int].0@, connecting, t));
                        assert forall|k: int|
                            0 <= k < key@.len() implies (#[trigger] key@[k])@.to_multiset()
                            == crate::game::digits_of(connecting[k].cells@, t).to_multiset() by {
                            assert(key_view(before[g as int].0@)[k] == key_view(key@)[k]);
                            assert(before[g as int].0@[k]@ == key@[k]@);
                        }
                    }
                }
            }
            let ghost removed = groups@;
            groups.push((key, merged));
            proof {
                let newg = groups@;
                assert(newg =~= removed.push((key, merged)));
                assert forall|j: int| 0 <= j < removed.len() implies newg[j] == removed[j] by {}
                assert(newg[newg.len() - 1] == (key, merged));
                assert(groups_wf(newg, connecting, num_cells));
                assert(groups_keyed(newg, connecting) && groups_sound(
                    newg,
                    all_constraints,
                    num_cells,
                )) by {
                    assert forall|g2: int, t: Seq<Value>|
                        0 <= g2 < newg.len() && #[trigger] qsols(newg[g2].1).contains(
                            t,
                        ) implies key_matches(newg[g2].0@, connecting, t)
                        && crate::relaxed::spec_is_solution(num_cells, all_constraints, t) by {
                        if g2 < removed.len() {
                            let orig = if g2 < g {
                                g2
                            } else {
                                g2 + 1
                            };
                            assert(newg[g2] == before[orig]);
                            assert(qsols(before[orig].1).contains(t));
                        }
                    }
                }
                assert(keys_distinct(newg)) by {
                    assert forall|g1: int, g2: int|
                        0 <= g1 < g2 < newg.len() implies key_view((#[trigger] newg[g1]).0@)
                        != key_view((#[trigger] newg[g2]).0@) by {
                        let o1 = if g1 < g {
                            g1
                        } else {
                            g1 + 1
                        };
                        if g2 < removed.len() {
                            let o2 = if g2 < g {
                                g2
                            } else {
                                g2 + 1
                            };
                            assert(newg[g1] == before[o1]);
                            assert(newg[g2] == before[o2]);
                        } else {
                            assert(newg[g1] == before[o1]);
                            assert(key_view(newg[g2].0@) == key_view(before[g as int].0@));
                            assert(o1 != g);
                            if o1 < g {
                                assert(key_view(before[o1].0@) != key_view(before[g as int].0@));
                            } else {
                                assert(key_view(before[g as int].0@) != key_view(before[o1].0@));
                            }
                        }
                    }
                }
                assert forall|s: Seq<Value>| #[trigger] covered(before, s) implies covered(
                    newg,
                    s,
                ) by {
                    let g2 = choose|g2: int|
                        0 <= g2 < before.len() && qsols((#[trigger] before[g2]).1).contains(s);
                    if g2 == g {
                        assert(qsols(merged).contains(s));
                        assert(qsols(newg[newg.len() - 1].1).contains(s));
                    } else {
                        let ni = if g2 < g {
                            g2
                        } else {
                            g2 - 1
                        };
                        assert(newg[ni] == before[g2]);
                        assert(qsols(newg[ni].1).contains(s));
                    }
                }
                assert forall|s: Seq<Value>| #[trigger] qsols(q).contains(s) implies covered(
                    newg,
                    s,
                ) by {
                    assert(qsols(merged).contains(s));
                    assert(qsols(newg[newg.len() - 1].1).contains(s));
                }
            }
            return;
        }
        g += 1;
    }
    let ghost before = groups@;
    groups.push((key, q));
    proof {
        let newg = groups@;
        assert(newg =~= before.push((key, q)));
        assert forall|j: int| 0 <= j < before.len() implies newg[j] == before[j] by {}
        assert(newg[newg.len() - 1] == (key, q));
        assert(groups_wf(newg, connecting, num_cells));
        assert(groups_keyed(newg, connecting) && groups_sound(newg, all_constraints, num_cells))
            by {
            assert forall|g2: int, t: Seq<Value>|
                0 <= g2 < newg.len() && #[trigger] qsols(newg[g2].1).contains(t) implies key_matches(
                newg[g2].0@,
                connecting,
                t,
            ) && crate::relaxed::spec_is_solution(num_cells, all_constraints, t) by {
                if g2 < before.len() {
                    assert(newg[g2] == before[g2]);
                    assert(qsols(before[g2].1).contains(t));
                }
            }
        }
        assert(keys_distinct(newg)) by {
            assert forall|g1: int, g2: int|
                0 <= g1 < g2 < newg.len() implies key_view((#[trigger] newg[g1]).0@) != key_view(
                (#[trigger] newg[g2]).0@,
            ) by {
                if g2 < before.len() {
                } else {
                    assert(newg[g1] == before[g1]);
                    assert(key_view(before[g1].0@) != key_view(key@));
                }
            }
        }
        assert forall|s: Seq<Value>| #[trigger] covered(before, s) implies covered(newg, s) by {
            let g2 = choose|g2: int|
                0 <= g2 < before.len() && qsols((#[trigger] before[g2]).1).contains(s);
            assert(newg[g2] == before[g2]);
            assert(qsols(newg[g2].1).contains(s));
        }
        assert forall|s: Seq<Value>| #[trigger] qsols(q).contains(s) implies covered(newg, s) by {
            assert(qsols(newg[newg.len() - 1].1).contains(s));
        }
    }
}

/// Solves a sub-puzzle and returns its solutions grouped by the digits they
/// give to the connecting constraints' cells: together the groups stand for
/// every solution of the sub-puzzle, each group's key names its assignments'
/// connecting digits, and no two groups share a key.
#[verifier::rlimit(100)]
#[verifier::spinoff_prover]
fn solve_rec(
    num_cells: usize,
    all_constraints: &Vec<Constraint>,
    connecting: &Vec<Constraint>,
    table: &SumTable,
) -> (r: Vec<(Key, QuasiSolution)>)
    requires
        table.wf(),
        forall|k: int| 0 <= k < all_constraints@.len() ==> (#[trigger] all_constraints@[k]).wf(
            num_cells as nat,
        ),
        conn_wf(connecting@, num_cells as nat),
    ensures
        groups_wf(r@, connecting@, num_cells as nat),
        groups_keyed(r@, connecting@),
        groups_sound(r@, all_constraints@, num_cells as nat),
        keys_distinct(r@),
        forall|s: Seq<Value>|
            #[trigger] crate::relaxed::spec_is_solution(num_cells as nat, all_constraints@, s)
                ==> covered(r@, s),
    decreases num_cells,
{
    let sp_opt = split(num_cells, all_constraints);
    match sp_opt {
        None => {
            let solutions = crate::base_solver::solve(num_cells, all_constraints, table);
            let mut groups: Vec<(Key, QuasiSolution)> = Vec::new();
            let mut si: usize = 0;
            while si < solutions.len()
                invariant
                    groups_wf(groups@, connecting@, num_cells as nat),
                    groups_keyed(groups@, connecting@),
                    groups_sound(groups@, all_constraints@, num_cells as nat),
                    keys_distinct(groups@),
                    conn_wf(connecting@, num_cells as nat),
                    si <= solutions@.len(),
                    forall|j: int|
                        0 <= j < solutions@.len() ==> crate::relaxed::spec_is_solution(
                            num_cells as nat,
                            all_constraints@,
                            (#[trigger] solutions@[j])@,
                        ),
                    forall|j: int| 0 <= j < si ==> covered(groups@, (#[trigger] solutions@[j])@),
                decreases solutions@.len() - si,
            {
                let solution = &solutions[si];
                proof {
                    assert(solution@.len() == num_cells);
                }
                let mut key: Key = Vec::new();
                let mut k: usize = 0;
                while k < connecting.len()
                    invariant
                        conn_wf(connecting@, num_cells as nat),
                        solution@.len() == num_cells,
                        forall|i: int| 0 <= i < solution@.len() ==> 1 <= #[trigger] solution@[i]
                            <= 9,
                        k <= connecting@.len(),
                        key@.len() == k,
                        forall|k2: int|
                            0 <= k2 < k ==> (#[trigger] key@[k2])@ == crate::game::digits_of(
                                connecting@[k2].cells@,
                                solution@,
                            ),
                        forall|k2: int|
                            0 <= k2 < k ==> (#[trigger] key@[k2])@.len()
                                == connecting@[k2].cells@.len(),
                        forall|k2: int, b: int|
                            0 <= k2 < k && 0 <= b < key@[k2]@.len() ==> 1 <= #[trigger] key@[k2]@[b]
                                <= 9,
                    decreases connecting@.len() - k,
                {
                    let vals = gather_digits(&connecting[k].cells, solution);
                    proof {
                        assert forall|b: int| 0 <= b < vals@.len() implies 1 <= #[trigger] vals@[b]
                            <= 9 by {
                            assert(vals@[b] == solution@[connecting@[k as int].cells@[b] as int]);
                        }
                    }
                    key.push(vals);
                    k += 1;
                }
                let q = QuasiSolution::Concrete(copy_solution(solution));
                proof {
                    assert(qsols(q) =~= seq![solution@]);
                    assert forall|t: Seq<Value>| #[trigger] qsols(q).contains(t) implies t.len()
                        == num_cells && key_matches(key@, connecting@, t)
                        && crate::relaxed::spec_is_solution(
                        num_cells as nat,
                        all_constraints@,
                        t,
                    ) by {
                        assert(t == solution@);
                    }
                    assert(key_wf(key@, connecting@));
                    assert(group_wf(q, num_cells as nat));
                    assert(qsols(q).contains(solution@)) by {
                        assert(qsols(q)[0] == solution@);
                    }
                }
                let ghost pre = groups@;
                insert_group(
                    &mut groups,
                    key,
                    q,
                    Ghost(connecting@),
                    Ghost(all_constraints@),
                    Ghost(num_cells as nat),
                );
                proof {
                    assert forall|j: int| 0 <= j < si + 1 implies covered(
                        groups@,
                        (#[trigger] solutions@[j])@,
                    ) by {
                        if j < si {
                            assert(covered(pre, solutions@[j]@));
                        }
                    }
                }
                si += 1;
            }
            proof {
                assert forall|s: Seq<Value>|
                    #[trigger] crate::relaxed::spec_is_solution(
                        num_cells as nat,
                        all_constraints@,
                        s,
                    ) implies covered(groups@, s) by {
                    let j = choose|j: int|
                        0 <= j < solutions@.len() && (#[trigger] solutions@[j])@ == s;
                    assert(covered(groups@, solutions@[j]@));
                }
            }
            groups
        },
        Some(sp) => {
            let red_count = crate::quasi::count_cells(&sp.colors, Color::Red);
            let blue_count = crate::quasi::count_cells(&sp.colors, Color::Blue);
            proof {
                lemma_count_color_total(sp.colors@);
            }
            // project the outer connecting constraints and the new split
            // connections into each half
            let mut red_conn: Vec<Constraint> = Vec::new();
            let mut blue_conn: Vec<Constraint> = Vec::new();
            let mut k: usize = 0;
            while k < connecting.len()
                invariant
                    sp.wf(num_cells as nat),
                    red_count == count_color(sp.colors@, Color::Red),
                    blue_count == count_color(sp.colors@, Color::Blue),
                    conn_wf(connecting@, num_cells as nat),
                    k <= connecting@.len(),
                    red_conn@.len() == k,
                    blue_conn@.len() == k,
                    forall|k2: int|
                        0 <= k2 < k ==> (#[trigger] red_conn@[k2]).cells@ == project_cells(
                            connecting@[k2].cells@,
                            sp.colors@,
                            Color::Red,
                        ),
                    forall|k2: int|
                        0 <= k2 < k ==> (#[trigger] blue_conn@[k2]).cells@ == project_cells(
                            connecting@[k2].cells@,
                            sp.colors@,
                            Color::Blue,
                        ),
                    conn_wf(red_conn@, red_count as nat),
                    conn_wf(blue_conn@, blue_count as nat),
                decreases connecting@.len() - k,
            {
                let tr = translate_constraint(&connecting[k], Color::Red, &sp.colors, &sp.index_mapping);
                let tb = translate_constraint(&connecting[k], Color::Blue, &sp.colors, &sp.index_mapping);
                red_conn.push(tr);
                blue_conn.push(tb);
                k += 1;
            }
            let mut k: usize = 0;
            while k < sp.connections.len()
                invariant
                    sp.wf(num_cells as nat),
                    red_count == count_color(sp.colors@, Color::Red),
                    blue_count == count_color(sp.colors@, Color::Blue),
                    conn_wf(connecting@, num_cells as nat),
                    k <= sp.connections@.len(),
                    red_conn@.len() == connecting@.len() + k,
                    blue_conn@.len() == connecting@.len() + k,
                    forall|k2: int|
                        0 <= k2 < connecting@.len() ==> (#[trigger] red_conn@[k2]).cells@
                            == project_cells(connecting@[k2].cells@, sp.colors@, Color::Red),
                    forall|k2: int|
                        0 <= k2 < connecting@.len() ==> (#[trigger] blue_conn@[k2]).cells@
                            == project_cells(connecting@[k2].cells@, sp.colors@, Color::Blue),
                    forall|k2: int|
                        connecting@.len() <= k2 < red_conn@.len() ==> (#[trigger] red_conn@[k2]).cells@
                            == project_cells(
                            sp.connections@[k2 - connecting@.len()].cells@,
                            sp.colors@,
                            Color::Red,
                        ),
                    forall|k2: int|
                        connecting@.len() <= k2 < blue_conn@.len() ==> (#[trigger] blue_conn@[k2]).cells@
                            == project_cells(
                            sp.connections@[k2 - connecting@.len()].cells@,
                            sp.colors@,
                            Color::Blue,
                        ),
                    conn_wf(red_conn@, red_count as nat),
                    conn_wf(blue_conn@, blue_count as nat),
                decreases sp.connections@.len() - k,
            {
                let tr = translate_constraint(
                    &sp.connections[k],
                    Color::Red,
                    &sp.colors,
                    &sp.index_mapping,
                );
                let tb = translate_constraint(
                    &sp.connections[k],
                    Color::Blue,
                    &sp.colors,
                    &sp.index_mapping,
                );
                red_conn.push(tr);
                blue_conn.push(tb);
                k += 1;
            }
            let total_conn = red_conn.len();
            let red_groups = solve_rec(red_count, &sp.red_constraints, &red_conn, table);
            let blue_groups = solve_rec(blue_count, &sp.blue_constraints, &blue_conn, table);
            let mut groups: Vec<(Key, QuasiSolution)> = Vec::new();
            let mut gr: usize = 0;
            while gr < red_groups.len()
                invariant
                    table.wf(),
                    sp.wf(num_cells as nat),
                    sp.sound_for(all_constraints@),
                    forall|k2: int| 0 <= k2 < all_constraints@.len() ==> (
                    #[trigger] all_constraints@[k2]).wf(num_cells as nat),
                    num_cells == sp.colors@.len(),
                    red_count == count_color(sp.colors@, Color::Red),
                    blue_count == count_color(sp.colors@, Color::Blue),
                    conn_wf(connecting@, num_cells as nat),
                    red_conn@.len() == connecting@.len() + sp.connections@.len(),
                    blue_conn@.len() == connecting@.len() + sp.connections@.len(),
                    total_conn == red_conn@.len(),
                    forall|k2: int|
                        0 <= k2 < connecting@.len() ==> (#[trigger] red_conn@[k2]).cells@
                            == project_cells(connecting@[k2].cells@, sp.colors@, Color::Red),
                    forall|k2: int|
                        0 <= k2 < connecting@.len() ==> (#[trigger] blue_conn@[k2]).cells@
                            == project_cells(connecting@[k2].cells@, sp.colors@, Color::Blue),
                    forall|k2: int|
                        connecting@.len() <= k2 < red_conn@.len() ==> (#[trigger] red_conn@[k2]).cells@
                            == project_cells(
                            sp.connections@[k2 - connecting@.len()].cells@,
                            sp.colors@,
                            Color::Red,
                        ),
                    forall|k2: int|
                        connecting@.len() <= k2 < blue_conn@.len() ==> (#[trigger] blue_conn@[k2]).cells@
                            == project_cells(
                            sp.connections@[k2 - connecting@.len()].cells@,
                            sp.colors@,
                            Color::Blue,
                        ),
                    groups_wf(red_groups@, red_conn@, red_count as nat),
                    groups_wf(blue_groups@, blue_conn@, blue_count as nat),
                    groups_keyed(red_groups@, red_conn@),
                    groups_keyed(blue_groups@, blue_conn@),
                    groups_sound(red_groups@, sp.red_constraints@, red_count as nat),
                    groups_sound(blue_groups@, sp.blue_constraints@, blue_count as nat),
                    forall|s2: Seq<Value>|
                        #[trigger] crate::relaxed::spec_is_solution(
                            blue_count as nat,
                            sp.blue_constraints@,
                            s2,
                        ) ==> covered(blue_groups@, s2),
                    groups_wf(groups@, connecting@, num_cells as nat),
                    groups_keyed(groups@, connecting@),
                    groups_sound(groups@, all_constraints@, num_cells as nat),
                    keys_distinct(groups@),
                    gr <= red_groups@.len(),
                    forall|s: Seq<Value>|
                        #[trigger] crate::relaxed::spec_is_solution(
                            num_cells as nat,
                            all_constraints@,
                            s,
                        ) && found_below(
                            red_groups@,
                            gr as int,
                            crate::quasi::restrict(sp.colors@, Color::Red, s),
                        ) ==> covered(groups@, s),
                decreases red_groups@.len() - gr,
            {
                let mut gb: usize = 0;
                while gb < blue_groups.len()
                    invariant
                        table.wf(),
                        sp.wf(num_cells as nat),
                        sp.sound_for(all_constraints@),
                        forall|k2: int| 0 <= k2 < all_constraints@.len() ==> (
                        #[trigger] all_constraints@[k2]).wf(num_cells as nat),
                        num_cells == sp.colors@.len(),
                        red_count == count_color(sp.colors@, Color::Red),
                        blue_count == count_color(sp.colors@, Color::Blue),
                        conn_wf(connecting@, num_cells as nat),
                        red_conn@.len() == connecting@.len() + sp.connections@.len(),
                        blue_conn@.len() == connecting@.len() + sp.connections@.len(),
                        total_conn == red_conn@.len(),
                        forall|k2: int|
                            0 <= k2 < connecting@.len() ==> (#[trigger] red_conn@[k2]).cells@
                                == project_cells(connecting@[k2].cells@, sp.colors@, Color::Red),
                        forall|k2: int|
                            0 <= k2 < connecting@.len() ==> (#[trigger] blue_conn@[k2]).cells@
                                == project_cells(connecting@[k2].cells@, sp.colors@, Color::Blue),
                        forall|k2: int|
                            connecting@.len() <= k2 < red_conn@.len() ==> (
                            #[trigger] red_conn@[k2]).cells@ == project_cells(
                                sp.connections@[k2 - connecting@.len()].cells@,
                                sp.colors@,
                                Color::Red,
                            ),
                        forall|k2: int|
                            connecting@.len() <= k2 < blue_conn@.len() ==> (
                            #[trigger] blue_conn@[k2]).cells@ == project_cells(
                                sp.connections@[k2 - connecting@.len()].cells@,
                                sp.colors@,
                                Color::Blue,
                            ),
                        groups_wf(red_groups@, red_conn@, red_count as nat),
                        groups_wf(blue_groups@, blue_conn@, blue_count as nat),
                        groups_keyed(red_groups@, red_conn@),
                        groups_keyed(blue_groups@, blue_conn@),
                        groups_sound(red_groups@, sp.red_constraints@, red_count as nat),
                        groups_sound(blue_groups@, sp.blue_constraints@, blue_count as nat),
                        groups_wf(groups@, connecting@, num_cells as nat),
                        groups_keyed(groups@, connecting@),
                        groups_sound(groups@, all_constraints@, num_cells as nat),
                        keys_distinct(groups@),
                        gr < red_groups@.len(),
                        gb <= blue_groups@.len(),
                        forall|s: Seq<Value>|
                            #[trigger] crate::relaxed::spec_is_solution(
                                num_cells as nat,
                                all_constraints@,
                                s,
                            ) && found_below(
                                red_groups@,
                                gr as int,
                                crate::quasi::restrict(sp.colors@, Color::Red, s),
                            ) ==> covered(groups@, s),
                        forall|s: Seq<Value>|
                            #[trigger] crate::relaxed::spec_is_solution(
                                num_cells as nat,
                                all_constraints@,
                                s,
                            ) && qsols(red_groups@[gr as int].1).contains(
                                crate::quasi::restrict(sp.colors@, Color::Red, s),
                            ) && found_below(
                                blue_groups@,
                                gb as int,
                                crate::quasi::restrict(sp.colors@, Color::Blue, s),
                            ) ==> covered(groups@, s),
                    decreases blue_groups@.len() - gb,
                {
                    let off = connecting.len();
                    let mut ok = true;
                    let mut ci: usize = 0;
                    while ci < sp.connections.len()
                        invariant
                            sp.wf(num_cells as nat),
                            num_cells == sp.colors@.len(),
                            conn_wf(connecting@, num_cells as nat),
                            off == connecting@.len(),
                            red_conn@.len() == connecting@.len() + sp.connections@.len(),
                            blue_conn@.len() == connecting@.len() + sp.connections@.len(),
                            total_conn == red_conn@.len(),
                            forall|k2: int|
                                connecting@.len() <= k2 < red_conn@.len() ==> (
                                #[trigger] red_conn@[k2]).cells@ == project_cells(
                                    sp.connections@[k2 - connecting@.len()].cells@,
                                    sp.colors@,
                                    Color::Red,
                                ),
                            forall|k2: int|
                                connecting@.len() <= k2 < blue_conn@.len() ==> (
                                #[trigger] blue_conn@[k2]).cells@ == project_cells(
                                    sp.connections@[k2 - connecting@.len()].cells@,
                                    sp.colors@,
                                    Color::Blue,
                                ),
                            groups_wf(red_groups@, red_conn@, red_count as nat),
                            groups_wf(blue_groups@, blue_conn@, blue_count as nat),
                            gr < red_groups@.len(),
                            gb < blue_groups@.len(),
                            ci <= sp.connections@.len(),
                            ok == conn_checks_pass(
                                red_groups@[gr as int].0@,
                                blue_groups@[gb as int].0@,
                                sp.connections@,
                                off as int,
                                ci as int,
                            ),
                        decreases sp.connections@.len() - ci,
                    {
                        let rv = &red_groups[gr].0[off + ci];
                        let bv = &blue_groups[gb].0[off + ci];
                        let values = add_slices(rv, bv);
                        proof {
                            assert(sp.connections@[ci as int].wf(num_cells as nat));
                            lemma_project_cells_props(
                                sp.connections@[ci as int].cells@,
                                sp.colors@,
                                Color::Red,
                            );
                            assert(red_conn@[off + ci].cells@ == project_cells(
                                sp.connections@[ci as int].cells@,
                                sp.colors@,
                                Color::Red,
                            ));
                            assert(blue_conn@[off + ci].cells@ == project_cells(
                                sp.connections@[ci as int].cells@,
                                sp.colors@,
                                Color::Blue,
                            ));
                            assert(key_wf(red_groups@[gr as int].0@, red_conn@));
                            assert(rv@.len() == red_conn@[off + ci].cells@.len());
                            assert(bv@.len() == blue_conn@[off + ci].cells@.len());
                            assert(values@.len() <= 9);
                            assert forall|i: int| 0 <= i < values@.len() implies 1 <= (
                            #[trigger] values@[i]) <= 9 by {
                                if i < rv@.len() {
                                    assert(values@[i] == rv@[i]);
                                } else {
                                    assert(values@[i] == bv@[i - rv@.len()]);
                                }
                            }
                        }
                        let passed = do_values_satisfy_sum(
                            &values,
                            sp.connections[ci].min,
                            sp.connections[ci].max,
                        );
                        if !passed {
                            ok = false;
                        }
                        proof {
                            assert(values@ == red_groups@[gr as int].0@[off + ci]@
                                + blue_groups@[gb as int].0@[off + ci]@);
                            assert(passed == checks_one(
                                red_groups@[gr as int].0@,
                                blue_groups@[gb as int].0@,
                                sp.connections@,
                                off as int,
                                ci as int,
                            ));
                            if ok {
                                assert forall|ci2: int|
                                    0 <= ci2 < ci + 1 implies #[trigger] checks_one(
                                    red_groups@[gr as int].0@,
                                    blue_groups@[gb as int].0@,
                                    sp.connections@,
                                    off as int,
                                    ci2,
                                ) by {}
                            } else {
                                if conn_checks_pass(
                                    red_groups@[gr as int].0@,
                                    blue_groups@[gb as int].0@,
                                    sp.connections@,
                                    off as int,
                                    ci as int + 1,
                                ) {
                                    assert(checks_one(
                                        red_groups@[gr as int].0@,
                                        blue_groups@[gb as int].0@,
                                        sp.connections@,
                                        off as int,
                                        ci as int,
                                    ));
                                }
                            }
                        }
                        ci += 1;
                    }
                    // the key and merged tree for this pair of groups
                    let mut key: Key = Vec::new();
                    let mut k: usize = 0;
                    while k < off
                        invariant
                            sp.wf(num_cells as nat),
                            conn_wf(connecting@, num_cells as nat),
                            off == connecting@.len(),
                            red_conn@.len() == connecting@.len() + sp.connections@.len(),
                            blue_conn@.len() == connecting@.len() + sp.connections@.len(),
                            forall|k2: int|
                                0 <= k2 < connecting@.len() ==> (#[trigger] red_conn@[k2]).cells@
                                    == project_cells(
                                    connecting@[k2].cells@,
                                    sp.colors@,
                                    Color::Red,
                                ),
                            forall|k2: int|
                                0 <= k2 < connecting@.len() ==> (
                                #[trigger] blue_conn@[k2]).cells@ == project_cells(
                                    connecting@[k2].cells@,
                                    sp.colors@,
                                    Color::Blue,
                                ),
                            groups_wf(red_groups@, red_conn@, red_count as nat),
                            groups_wf(blue_groups@, blue_conn@, blue_count as nat),
                            gr < red_groups@.len(),
                            gb < blue_groups@.len(),
                            k <= off,
                            key@.len() == k,
                            forall|k2: int|
                                0 <= k2 < k ==> (#[trigger] key@[k2])@
                                    == red_groups@[gr as int].0@[k2]@
                                    + blue_groups@[gb as int].0@[k2]@,
                            forall|k2: int|
                                0 <= k2 < k ==> (#[trigger] key@[k2])@.len()
                                    == connecting@[k2].cells@.len(),
                            forall|k2: int, b: int|
                                0 <= k2 < k && 0 <= b < key@[k2]@.len() ==> 1 <= (
                                #[trigger] key@[k2]@[b]) <= 9,
                        decreases off - k,
                    {
                        proof {
                            lemma_project_cells_props(
                                connecting@[k as int].cells@,
                                sp.colors@,
                                Color::Red,
                            );
                        }
                        let rv = &red_groups[gr].0[k];
                        let bv = &blue_groups[gb].0[k];
                        let merged = add_slices(rv, bv);
                        proof {
                            assert forall|b: int| 0 <= b < merged@.len() implies 1 <= (
                            #[trigger] merged@[b]) <= 9 by {
                                if b < rv@.len() {
                                    assert(merged@[b] == rv@[b]);
                                } else {
                                    assert(merged@[b] == bv@[b - rv@.len()]);
                                }
                            }
                        }
                        key.push(merged);
                        k += 1;
                    }
                    let q = QuasiSolution::Product {
                        colors: crate::quasi::copy_colors(&sp.colors),
                        red: Box::new(red_groups[gr].1.duplicate()),
                        blue: Box::new(blue_groups[gb].1.duplicate()),
                    };
                    let ghost qg = q;
                    proof {
                        let rq = red_groups@[gr as int].1;
                        let bq = blue_groups@[gb as int].1;
                        assert(group_wf(rq, red_count as nat));
                        assert(group_wf(bq, blue_count as nat));
                        assert(qsols(qg) == crate::quasi::product_sols(
                            sp.colors@,
                            qsols(rq),
                            qsols(bq),
                        ));
                        assert(qlen_ok(qg)) by {
                            assert forall|s: Seq<Value>| qsols(rq).contains(s) implies s.len()
                                == count_color(sp.colors@, Color::Red) by {}
                            assert forall|s: Seq<Value>| qsols(bq).contains(s) implies s.len()
                                == count_color(sp.colors@, Color::Blue) by {}
                        }
                        // every assignment the product stands for is a merge of
                        // one red and one blue group member; its key digits are
                        // the two halves' digits put together
                        assert forall|t: Seq<Value>| #[trigger] qsols(qg).contains(t) implies t.len()
                            == num_cells && key_matches(key@, connecting@, t) by {
                            lemma_product_sols_contains(sp.colors@, qsols(rq), qsols(bq));
                            let (i2, j2): (int, int) = choose|i2: int, j2: int|
                                0 <= i2 < qsols(rq).len() && 0 <= j2 < qsols(bq).len() && t
                                    == crate::quasi::interleave(
                                    sp.colors@,
                                    qsols(rq)[i2],
                                    qsols(bq)[j2],
                                );
                            let rt = qsols(rq)[i2];
                            let bt = qsols(bq)[j2];
                            assert(qsols(rq).contains(rt));
                            assert(qsols(bq).contains(bt));
                            lemma_interleave_len(sp.colors@, rt, bt);
                            crate::quasi::lemma_restrict_interleave(sp.colors@, rt, bt);
                            assert(key_matches(red_groups@[gr as int].0@, red_conn@, rt));
                            assert(key_matches(blue_groups@[gb as int].0@, blue_conn@, bt));
                            assert forall|k2: int|
                                0 <= k2 < key@.len() implies (#[trigger] key@[k2])@.to_multiset()
                                == crate::game::digits_of(
                                connecting@[k2].cells@,
                                t,
                            ).to_multiset() by {
                                let cells = connecting@[k2].cells@;
                                lemma_project_digits(cells, sp.colors@, Color::Red, t);
                                lemma_project_digits(cells, sp.colors@, Color::Blue, t);
                                crate::split::lemma_color_digits_split(cells, sp.colors@, t);
                                vstd::seq_lib::lemma_multiset_commutative(
                                    red_groups@[gr as int].0@[k2]@,
                                    blue_groups@[gb as int].0@[k2]@,
                                );
                                assert(red_groups@[gr as int].0@[k2]@.to_multiset()
                                    == crate::game::digits_of(
                                    red_conn@[k2].cells@,
                                    rt,
                                ).to_multiset());
                                assert(crate::game::digits_of(red_conn@[k2].cells@, rt)
                                    == crate::split::color_digits(cells, sp.colors@, Color::Red, t));
                                assert(crate::game::digits_of(blue_conn@[k2].cells@, bt)
                                    == crate::split::color_digits(
                                    cells,
                                    sp.colors@,
                                    Color::Blue,
                                    t,
                                ));
                            }
                        }
                        assert(key_wf(key@, connecting@));
                        assert(group_wf(qg, num_cells as nat));
                        // a solution whose halves sit in these two groups makes
                        // every connecting check pass
                        assert forall|s: Seq<Value>|
                            #[trigger] crate::relaxed::spec_is_solution(
                                num_cells as nat,
                                all_constraints@,
                                s,
                            ) && qsols(rq).contains(
                                crate::quasi::restrict(sp.colors@, Color::Red, s),
                            ) && qsols(bq).contains(
                                crate::quasi::restrict(sp.colors@, Color::Blue, s),
                            ) implies conn_checks_pass(
                            red_groups@[gr as int].0@,
                            blue_groups@[gb as int].0@,
                            sp.connections@,
                            off as int,
                            sp.connections@.len() as int,
                        ) && qsols(qg).contains(s) by {
                            let rs_ = crate::quasi::restrict(sp.colors@, Color::Red, s);
                            let bs_ = crate::quasi::restrict(sp.colors@, Color::Blue, s);
                            assert(key_matches(red_groups@[gr as int].0@, red_conn@, rs_));
                            assert(key_matches(blue_groups@[gb as int].0@, blue_conn@, bs_));
                            let srcs = choose|srcs: Seq<int>|
                                (#[trigger] srcs.len()) == sp.connections@.len() && (forall|
                                    kc: int,
                                |
                                    0 <= kc < srcs.len() ==> 0 <= #[trigger] srcs[kc]
                                        < all_constraints@.len() && same_constraint(
                                        sp.connections@[kc],
                                        all_constraints@[srcs[kc]],
                                    )) && (forall|k1: int, k2: int|
                                    0 <= k1 < k2 < srcs.len() ==> srcs[k1] < srcs[k2]);
                            assert forall|ci2: int|
                                0 <= ci2 < sp.connections@.len() implies checks_one(
                                red_groups@[gr as int].0@,
                                blue_groups@[gb as int].0@,
                                sp.connections@,
                                off as int,
                                ci2,
                            ) by {
                                let j = srcs[ci2];
                                assert(same_constraint(
                                    sp.connections@[ci2],
                                    all_constraints@[j],
                                ));
                                assert(all_constraints@[j].spec_satisfied(s));
                                let cells = sp.connections@[ci2].cells@;
                                assert(all_constraints@[j].cells@ == cells);
                                lemma_project_digits(cells, sp.colors@, Color::Red, s);
                                lemma_project_digits(cells, sp.colors@, Color::Blue, s);
                                crate::split::lemma_color_digits_split(cells, sp.colors@, s);
                                let rke = red_groups@[gr as int].0@[off + ci2]@;
                                let bke = blue_groups@[gb as int].0@[off + ci2]@;
                                vstd::seq_lib::lemma_multiset_commutative(rke, bke);
                                assert(rke.to_multiset() == crate::game::digits_of(
                                    red_conn@[off + ci2].cells@,
                                    rs_,
                                ).to_multiset());
                                assert(crate::game::digits_of(red_conn@[off + ci2].cells@, rs_)
                                    == crate::split::color_digits(
                                    cells,
                                    sp.colors@,
                                    Color::Red,
                                    s,
                                ));
                                assert(crate::game::digits_of(blue_conn@[off + ci2].cells@, bs_)
                                    == crate::split::color_digits(
                                    cells,
                                    sp.colors@,
                                    Color::Blue,
                                    s,
                                ));
                                assert((rke + bke).to_multiset() == crate::game::digits_of(
                                    cells,
                                    s,
                                ).to_multiset());
                                crate::game::lemma_multiset_same_sum(
                                    rke + bke,
                                    crate::game::digits_of(cells, s),
                                );
                                crate::game::lemma_multiset_same_no_dup(
                                    rke + bke,
                                    crate::game::digits_of(cells, s),
                                );
                            }
                            crate::quasi::lemma_restrict_len(sp.colors@, Color::Red, s);
                            crate::quasi::lemma_restrict_len(sp.colors@, Color::Blue, s);
                            crate::quasi::lemma_interleave_restrict(sp.colors@, s);
                            let ir = choose|ir: int|
                                0 <= ir < qsols(rq).len() && qsols(rq)[ir] == rs_;
                            let jb = choose|jb: int|
                                0 <= jb < qsols(bq).len() && qsols(bq)[jb] == bs_;
                            crate::quasi::lemma_product_sols_has(
                                sp.colors@,
                                qsols(rq),
                                qsols(bq),
                                ir,
                                jb,
                            );
                        }
                    }
                    let ghost pre = groups@;
                    if ok {
                        proof {
                            let rq = red_groups@[gr as int].1;
                            let bq = blue_groups@[gb as int].1;
                            let rkey = red_groups@[gr as int].0@;
                            let bkey = blue_groups@[gb as int].0@;
                            // every assignment of this product solves the
                            // whole sub-puzzle: one-colored constraints are
                            // inherited from the half that solved them, and
                            // the connecting ones were checked on the keys
                            assert forall|t: Seq<Value>| #[trigger] qsols(qg).contains(
                                t,
                            ) implies crate::relaxed::spec_is_solution(
                                num_cells as nat,
                                all_constraints@,
                                t,
                            ) by {
                                lemma_product_sols_contains(sp.colors@, qsols(rq), qsols(bq));
                                let (i2, j2): (int, int) = choose|i2: int, j2: int|
                                    0 <= i2 < qsols(rq).len() && 0 <= j2 < qsols(bq).len() && t
                                        == crate::quasi::interleave(
                                        sp.colors@,
                                        qsols(rq)[i2],
                                        qsols(bq)[j2],
                                    );
                                let rt = qsols(rq)[i2];
                                let bt = qsols(bq)[j2];
                                assert(qsols(rq).contains(rt));
                                assert(qsols(bq).contains(bt));
                                assert(crate::relaxed::spec_is_solution(
                                    red_count as nat,
                                    sp.red_constraints@,
                                    rt,
                                ));
                                assert(crate::relaxed::spec_is_solution(
                                    blue_count as nat,
                                    sp.blue_constraints@,
                                    bt,
                                ));
                                lemma_interleave_len(sp.colors@, rt, bt);
                                crate::quasi::lemma_restrict_interleave(sp.colors@, rt, bt);
                                crate::quasi::lemma_interleave_range(sp.colors@, rt, bt);
                                assert(t.len() == num_cells);
                                assert forall|j: int|
                                    0 <= j < all_constraints@.len() implies (
                                #[trigger] all_constraints@[j]).spec_satisfied(t) by {
                                    let cells = all_constraints@[j].cells@;
                                    assert(all_constraints@[j].wf(num_cells as nat));
                                    if listed_in(all_constraints@[j], sp.connections@) {
                                        let kc = choose|kc: int|
                                            0 <= kc < sp.connections@.len() && same_constraint(
                                                #[trigger] sp.connections@[kc],
                                                all_constraints@[j],
                                            );
                                        assert(checks_one(
                                            rkey,
                                            bkey,
                                            sp.connections@,
                                            off as int,
                                            kc,
                                        ));
                                        assert(sp.connections@[kc].cells@ == cells);
                                        lemma_project_digits(cells, sp.colors@, Color::Red, t);
                                        lemma_project_digits(cells, sp.colors@, Color::Blue, t);
                                        crate::split::lemma_color_digits_split(
                                            cells,
                                            sp.colors@,
                                            t,
                                        );
                                        let rke = rkey[off + kc]@;
                                        let bke = bkey[off + kc]@;
                                        vstd::seq_lib::lemma_multiset_commutative(rke, bke);
                                        assert(key_matches(rkey, red_conn@, rt));
                                        assert(rke.to_multiset() == crate::game::digits_of(
                                            red_conn@[off + kc].cells@,
                                            rt,
                                        ).to_multiset());
                                        assert(red_conn@[off + kc].cells@ == project_cells(
                                            cells,
                                            sp.colors@,
                                            Color::Red,
                                        ));
                                        assert(crate::game::digits_of(
                                            red_conn@[off + kc].cells@,
                                            rt,
                                        ) == crate::split::color_digits(
                                            cells,
                                            sp.colors@,
                                            Color::Red,
                                            t,
                                        ));
                                        assert(crate::game::digits_of(
                                            blue_conn@[off + kc].cells@,
                                            bt,
                                        ) == crate::split::color_digits(
                                            cells,
                                            sp.colors@,
                                            Color::Blue,
                                            t,
                                        ));
                                        assert((rke + bke).to_multiset()
                                            == crate::game::digits_of(cells, t).to_multiset());
                                        crate::game::lemma_multiset_same_sum(
                                            rke + bke,
                                            crate::game::digits_of(cells, t),
                                        );
                                        crate::game::lemma_multiset_same_no_dup(
                                            rke + bke,
                                            crate::game::digits_of(cells, t),
                                        );
                                    } else {
                                        assert(monochromatic(all_constraints@[j], sp.colors@));
                                        if forall|ib: int|
                                            0 <= ib < cells.len() ==> sp.colors@[(
                                            #[trigger] cells[ib]) as int] == Color::Red {
                                            crate::split::lemma_project_mono_len(
                                                cells,
                                                sp.colors@,
                                                Color::Red,
                                            );
                                            lemma_project_cells_props(
                                                cells,
                                                sp.colors@,
                                                Color::Red,
                                            );
                                            assert(project_cells(
                                                cells,
                                                sp.colors@,
                                                Color::Blue,
                                            ).len() == 0);
                                            assert(project_cells(
                                                cells,
                                                sp.colors@,
                                                Color::Red,
                                            ).len() == cells.len());
                                            assert(holds_projection(
                                                sp.red_constraints@,
                                                all_constraints@[j],
                                                sp.colors@,
                                                Color::Red,
                                            ));
                                            let k2 = choose|k2: int|
                                                0 <= k2 < sp.red_constraints@.len()
                                                    && is_projection(
                                                    #[trigger] sp.red_constraints@[k2],
                                                    all_constraints@[j],
                                                    sp.colors@,
                                                    Color::Red,
                                                );
                                            let tc = sp.red_constraints@[k2];
                                            assert(tc.spec_satisfied(rt));
                                            lemma_project_digits(
                                                cells,
                                                sp.colors@,
                                                Color::Red,
                                                t,
                                            );
                                            crate::split::lemma_mono_color_digits(
                                                cells,
                                                sp.colors@,
                                                Color::Red,
                                                t,
                                            );
                                            assert(crate::game::digits_of(tc.cells@, rt)
                                                == crate::game::digits_of(cells, t));
                                            assert(crate::split::top_sum(0) == 0);
                                            assert(crate::split::bot_sum(1, 0) == 0);
                                            assert(tc.min == all_constraints@[j].min);
                                            assert(tc.max == all_constraints@[j].max);
                                        } else {
                                            assert(forall|ib: int|
                                                0 <= ib < cells.len() ==> sp.colors@[(
                                                #[trigger] cells[ib]) as int] == Color::Blue);
                                            crate::split::lemma_project_mono_len(
                                                cells,
                                                sp.colors@,
                                                Color::Blue,
                                            );
                                            lemma_project_cells_props(
                                                cells,
                                                sp.colors@,
                                                Color::Blue,
                                            );
                                            assert(project_cells(
                                                cells,
                                                sp.colors@,
                                                Color::Red,
                                            ).len() == 0);
                                            assert(project_cells(
                                                cells,
                                                sp.colors@,
                                                Color::Blue,
                                            ).len() == cells.len());
                                            assert(holds_projection(
                                                sp.blue_constraints@,
                                                all_constraints@[j],
                                                sp.colors@,
                                                Color::Blue,
                                            ));
                                            let k2 = choose|k2: int|
                                                0 <= k2 < sp.blue_constraints@.len()
                                                    && is_projection(
                                                    #[trigger] sp.blue_constraints@[k2],
                                                    all_constraints@[j],
                                                    sp.colors@,
                                                    Color::Blue,
                                                );
                                            let tc = sp.blue_constraints@[k2];
                                            assert(tc.spec_satisfied(bt));
                                            lemma_project_digits(
                                                cells,
                                                sp.colors@,
                                                Color::Blue,
                                                t,
                                            );
                                            crate::split::lemma_mono_color_digits(
                                                cells,
                                                sp.colors@,
                                                Color::Blue,
                                                t,
                                            );
                                            assert(crate::game::digits_of(tc.cells@, bt)
                                                == crate::game::digits_of(cells, t));
                                            assert(crate::split::top_sum(0) == 0);
                                            assert(crate::split::bot_sum(1, 0) == 0);
                                            assert(tc.min == all_constraints@[j].min);
                                            assert(tc.max == all_constraints@[j].max);
                                        }
                                    }
                                }
                            }
                        }
                        insert_group(
                            &mut groups,
                            key,
                            q,
                            Ghost(connecting@),
                            Ghost(all_constraints@),
                            Ghost(num_cells as nat),
                        );
                    }
                    proof {
                        let rq = red_groups@[gr as int].1;
                        let bq = blue_groups@[gb as int].1;
                        assert forall|s: Seq<Value>|
                            #[trigger] crate::relaxed::spec_is_solution(
                                num_cells as nat,
                                all_constraints@,
                                s,
                            ) && qsols(rq).contains(
                                crate::quasi::restrict(sp.colors@, Color::Red, s),
                            ) && found_below(
                                blue_groups@,
                                gb as int + 1,
                                crate::quasi::restrict(sp.colors@, Color::Blue, s),
                            ) implies covered(groups@, s) by {
                            if found_below(
                                blue_groups@,
                                gb as int,
                                crate::quasi::restrict(sp.colors@, Color::Blue, s),
                            ) {
                                assert(covered(pre, s));
                            } else {
                                assert(qsols(blue_groups@[gb as int].1).contains(
                                    crate::quasi::restrict(sp.colors@, Color::Blue, s),
                                ));
                                assert(qsols(qg).contains(s));
                                assert(ok);
                            }
                        }
                        assert forall|s: Seq<Value>|
                            #[trigger] crate::relaxed::spec_is_solution(
                                num_cells as nat,
                                all_constraints@,
                                s,
                            ) && found_below(
                                red_groups@,
                                gr as int,
                                crate::quasi::restrict(sp.colors@, Color::Red, s),
                            ) implies covered(groups@, s) by {
                            assert(covered(pre, s));
                        }
                    }
                    gb += 1;
                }
                proof {
                    assert forall|s: Seq<Value>|
                        #[trigger] crate::relaxed::spec_is_solution(
                            num_cells as nat,
                            all_constraints@,
                            s,
                        ) && found_below(
                            red_groups@,
                            gr as int + 1,
                            crate::quasi::restrict(sp.colors@, Color::Red, s),
                        ) implies covered(groups@, s) by {
                        if !found_below(
                            red_groups@,
                            gr as int,
                            crate::quasi::restrict(sp.colors@, Color::Red, s),
                        ) {
                            assert(qsols(red_groups@[gr as int].1).contains(
                                crate::quasi::restrict(sp.colors@, Color::Red, s),
                            ));
                            lemma_restrict_is_solution(
                                all_constraints@,
                                sp.blue_constraints@,
                                sp.colors@,
                                Color::Blue,
                                s,
                            );
                            assert(covered(
                                blue_groups@,
                                crate::quasi::restrict(sp.colors@, Color::Blue, s),
                            ));
                        }
                    }
                }
                gr += 1;
            }
            proof {
                assert forall|s: Seq<Value>|
                    #[trigger] crate::relaxed::spec_is_solution(
                        num_cells as nat,
                        all_constraints@,
                        s,
                    ) implies covered(groups@, s) by {
                    lemma_restrict_is_solution(
                        all_constraints@,
                        sp.red_constraints@,
                        sp.colors@,
                        Color::Red,
                        s,
                    );
                    assert(covered(
                        red_groups@,
                        crate::quasi::restrict(sp.colors@, Color::Red, s),
                    ));
                }
            }
            groups
        },
    }
}

/// Whether every connecting check among the first `upto` holds for a pair of
/// group keys.
pub open spec fn conn_checks_pass(
    rkey: Seq<Vec<Value>>,
    bkey: Seq<Vec<Value>>,
    connections: Seq<Constraint>,
    off: int,
    upto: int,
) -> bool {
    forall|ci: int|
        0 <= ci < upto ==> #[trigger] checks_one(rkey, bkey, connections, off, ci)
}

/// One connecting check: the concatenated key digits are pairwise distinct
/// and their sum lies in the constraint's range.
pub open spec fn checks_one(
    rkey: Seq<Vec<Value>>,
    bkey: Seq<Vec<Value>>,
    connections: Seq<Constraint>,
    off: int,
    ci: int,
) -> bool {
    &&& (rkey[off + ci]@ + bkey[off + ci]@).no_duplicates()
    &&& connections[ci].min <= seq_sum(rkey[off + ci]@ + bkey[off + ci]@) <= connections[ci].max
}

/// Whether the output already holds this assignment.
fn contains_solution(out: &Vec<Solution>, s: &Solution) -> (r: bool)
    ensures
        r == crate::laws::output_contains(out@, s@),
{
    let mut j: usize = 0;
    while j < out.len()
        invariant
            j <= out@.len(),
            forall|k: int| 0 <= k < j ==> (#[trigger] out@[k])@ != s@,
        decreases out@.len() - j,
    {
        if values_equal(&out[j], s) {
            proof {
                assert((out@[j as int])@ == s@);
            }
            return true;
        }
        j += 1;
    }
    proof {
        if crate::laws::output_contains(out@, s@) {
            let k = choose|k: int| 0 <= k < out@.len() && (#[trigger] out@[k])@ == s@;
        }
    }
    false
}

/// Solves the puzzle by divide and conquer: split, solve both halves, and
/// recombine lazily. The output is canonical: it holds every solution of the
/// puzzle, only solutions, and each of them once — the groups provably stand
/// for exactly the puzzle's solution set, so the built assignments are taken
/// as they come, deduplicated only.
pub fn solve(input: &Input) -> (r: Output)
    requires
        input.wf(),
    ensures
        forall|j: int| 0 <= j < r@.len() ==> input.spec_is_solution((#[trigger] r@[j])@),
        forall|s: Seq<Value>|
            #[trigger] input.spec_is_solution(s) ==> crate::laws::output_contains(r@, s),
        forall|j1: int, j2: int|
            0 <= j1 < j2 < r@.len() ==> (#[trigger] r@[j1])@ != (#[trigger] r@[j2])@,
        crate::laws::canonical_output(*input, r@),
{
    let table = calculate_sum_table();
    let constraints = crate::sum_reachable::relax_input(input);
    proof {
        crate::sum_reachable::lemma_relaxed_wf(*input, constraints@);
    }
    let empty_conn: Vec<Constraint> = Vec::new();
    proof {
        assert(empty_conn@ =~= Seq::<Constraint>::empty());
    }
    let groups = solve_rec(input.num_cells, &constraints, &empty_conn, &table);
    let mut out: Vec<Solution> = Vec::new();
    let mut g: usize = 0;
    while g < groups.len()
        invariant
            input.wf(),
            constraints@.len() == input.constraints@.len(),
            forall|i: int|
                0 <= i < constraints@.len() ==> (#[trigger] constraints@[i]).cells@
                    == input.constraints@[i].cells@ && constraints@[i].min
                    == input.constraints@[i].sum && constraints@[i].max
                    == input.constraints@[i].sum,
            groups_wf(groups@, empty_conn@, input.num_cells as nat),
            groups_sound(groups@, constraints@, input.num_cells as nat),
            forall|s: Seq<Value>|
                #[trigger] crate::relaxed::spec_is_solution(
                    input.num_cells as nat,
                    constraints@,
                    s,
                ) ==> covered(groups@, s),
            g <= groups@.len(),
            forall|j: int| 0 <= j < out@.len() ==> input.spec_is_solution((#[trigger] out@[j])@),
            forall|j1: int, j2: int|
                0 <= j1 < j2 < out@.len() ==> (#[trigger] out@[j1])@ != (#[trigger] out@[j2])@,
            forall|s: Seq<Value>|
                input.spec_is_solution(s) && #[trigger] found_below(groups@, g as int, s)
                    ==> crate::laws::output_contains(out@, s),
        decreases groups@.len() - g,
    {
        let q = groups[g].1.simplify();
        let sols = q.build();
        proof {
            assert(crate::quasi::sol_views(sols@) == qsols(groups@[g as int].1));
            assert forall|si2: int| 0 <= si2 < sols@.len() implies input.spec_is_solution(
                (#[trigger] sols@[si2])@,
            ) by {
                assert(crate::quasi::sol_views(sols@)[si2] == sols@[si2]@);
                assert(qsols(groups@[g as int].1).contains(sols@[si2]@));
                crate::sum_reachable::lemma_relaxed_equiv(*input, constraints@, sols@[si2]@);
            }
        }
        let mut si: usize = 0;
        while si < sols.len()
            invariant
                input.wf(),
                si <= sols@.len(),
                forall|si2: int| 0 <= si2 < sols@.len() ==> input.spec_is_solution(
                    (#[trigger] sols@[si2])@,
                ),
                forall|j: int| 0 <= j < out@.len() ==> input.spec_is_solution(
                    (#[trigger] out@[j])@,
                ),
                forall|j1: int, j2: int|
                    0 <= j1 < j2 < out@.len() ==> (#[trigger] out@[j1])@ != (#[trigger] out@[j2])@,
                forall|s: Seq<Value>|
                    input.spec_is_solution(s) && #[trigger] found_below(groups@, g as int, s)
                        ==> crate::laws::output_contains(out@, s),
                forall|si2: int|
                    0 <= si2 < si ==> crate::laws::output_contains(out@, (#[trigger] sols@[si2])@),
            decreases sols@.len() - si,
        {
            let ghost pre = out@;
            if !contains_solution(&out, &sols[si]) {
                let keep = copy_solution(&sols[si]);
                out.push(keep);
                proof {
                    assert forall|j1: int, j2: int|
                        0 <= j1 < j2 < out@.len() implies (#[trigger] out@[j1])@ != (
                    #[trigger] out@[j2])@ by {
                        if j2 == out@.len() - 1 {
                            assert(out@[j1] == pre[j1]);
                            if (out@[j1])@ == (out@[j2])@ {
                                assert(crate::laws::output_contains(pre, keep@));
                            }
                        } else {
                            assert(out@[j1] == pre[j1]);
                            assert(out@[j2] == pre[j2]);
                        }
                    }
                }
            }
            proof {
                assert forall|s: Seq<Value>|
                    #[trigger] crate::laws::output_contains(pre, s) implies crate::laws::output_contains(
                    out@,
                    s,
                ) by {
                    let j = choose|j: int| 0 <= j < pre.len() && (#[trigger] pre[j])@ == s;
                    assert(out@[j] == pre[j]);
                    assert((out@[j])@ == s);
                }
                assert forall|si2: int|
                    0 <= si2 < si + 1 implies crate::laws::output_contains(
                    out@,
                    (#[trigger] sols@[si2])@,
                ) by {
                    if si2 == si {
                        if crate::laws::output_contains(pre, sols@[si2]@) {
                        } else {
                            assert((out@[out@.len() - 1])@ == sols@[si2]@);
                        }
                    }
                }
            }
            si += 1;
        }
        proof {
            assert forall|s: Seq<Value>|
                input.spec_is_solution(s) && #[trigger] found_below(
                    groups@,
                    g as int + 1,
                    s,
                ) implies crate::laws::output_contains(out@, s) by {
                if !found_below(groups@, g as int, s) {
                    assert(qsols(groups@[g as int].1).contains(s));
                    let p = choose|p: int|
                        0 <= p < qsols(groups@[g as int].1).len() && qsols(groups@[g as int].1)[p]
                            == s;
                    assert(crate::quasi::sol_views(sols@)[p] == s);
                    assert((sols@[p])@ == s);
                    assert(crate::laws::output_contains(out@, (sols@[p])@));
                }
            }
        }
        g += 1;
    }
    proof {
        assert forall|s: Seq<Value>| #[trigger] input.spec_is_solution(
            s,
        ) implies crate::laws::output_contains(out@, s) by {
            crate::sum_reachable::lemma_relaxed_equiv(*input, constraints@, s);
            assert(crate::relaxed::spec_is_solution(input.num_cells as nat, constraints@, s));
            assert(covered(groups@, s));
            let g2 = choose|g2: int|
                0 <= g2 < groups@.len() && qsols((#[trigger] groups@[g2]).1).contains(s);
            assert(found_below(groups@, groups@.len() as int, s));
        }
    }
    out
}

} // verus!
