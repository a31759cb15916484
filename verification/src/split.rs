//! Splitting a puzzle in two: a small set of candidate connecting constraints
//! is removed, the cell graph is flooded from cell 0, and if some cells stay
//! unreached the puzzle falls apart into a red and a blue half. Constraints
//! are then projected into each half's local cell indices, with their targets
//! relaxed into a range that accounts for the cells that went to the other
//! half.

use crate::game::Value;
use crate::quasi::{count_color, Color};
use crate::relaxed::Constraint;
use vstd::prelude::*;

verus! {

/// The local index a cell gets inside its half: how many cells of the same
/// color come before it.
pub open spec fn rank(colors: Seq<Color>, c: Color, i: int) -> nat {
    count_color(colors.take(i), c)
}

/// Counting colors distributes over concatenation.
pub proof fn lemma_count_color_concat(a: Seq<Color>, b: Seq<Color>, c: Color)
    ensures
        count_color(a + b, c) == count_color(a, c) + count_color(b, c),
    decreases a.len(),
{
    if a.len() == 0 {
        assert(a + b =~= b);
    } else {
        assert((a + b).first() == a.first());
        assert((a + b).drop_first() =~= a.drop_first() + b);
        lemma_count_color_concat(a.drop_first(), b, c);
    }
}

/// Counting one more cell adds one when its color matches.
pub proof fn lemma_count_color_push(s: Seq<Color>, x: Color, c: Color)
    ensures
        count_color(s.push(x), c) == count_color(s, c) + if x == c {
            1int
        } else {
            0int
        },
{
    assert(s.push(x) =~= s + seq![x]);
    lemma_count_color_concat(s, seq![x], c);
    assert(seq![x].drop_first() =~= Seq::<Color>::empty());
    assert(count_color(Seq::<Color>::empty(), c) == 0);
}

/// Recoloring one cell moves one unit of count between the two colors.
pub proof fn lemma_count_color_update(s: Seq<Color>, i: int, v: Color, c: Color)
    requires
        0 <= i < s.len(),
    ensures
        count_color(s.update(i, v), c) == count_color(s, c) - (if s[i] == c {
            1int
        } else {
            0int
        }) + (if v == c {
            1int
        } else {
            0int
        }),
{
    let pre = s.take(i);
    let post = s.skip(i + 1);
    assert(s =~= pre + seq![s[i]] + post);
    assert(s.update(i, v) =~= pre + seq![v] + post);
    lemma_count_color_concat(pre + seq![s[i]], post, c);
    lemma_count_color_concat(pre, seq![s[i]], c);
    lemma_count_color_concat(pre + seq![v], post, c);
    lemma_count_color_concat(pre, seq![v], c);
    assert(seq![s[i]].drop_first() =~= Seq::<Color>::empty());
    assert(seq![v].drop_first() =~= Seq::<Color>::empty());
    assert(count_color(Seq::<Color>::empty(), c) == 0);
}

/// There are no more cells of one color than cells.
pub proof fn lemma_count_color_le_len(s: Seq<Color>, c: Color)
    ensures
        count_color(s, c) <= s.len(),
    decreases s.len(),
{
    if s.len() > 0 {
        lemma_count_color_le_len(s.drop_first(), c);
    }
}

/// A cell's local index is below the number of cells of its color.
pub proof fn lemma_rank_bound(colors: Seq<Color>, c: Color, i: int)
    requires
        0 <= i < colors.len(),
        colors[i] == c,
    ensures
        rank(colors, c, i) < count_color(colors, c),
{
    assert(colors =~= colors.take(i) + (seq![colors[i]] + colors.skip(i + 1)));
    lemma_count_color_concat(colors.take(i), seq![colors[i]] + colors.skip(i + 1), c);
    assert((seq![colors[i]] + colors.skip(i + 1)).first() == colors[i]);
    assert((seq![colors[i]] + colors.skip(i + 1)).drop_first() =~= colors.skip(i + 1));
}

/// Two same-colored cells get different local indices.
pub proof fn lemma_rank_injective(colors: Seq<Color>, c: Color, i: int, j: int)
    requires
        0 <= i < j < colors.len(),
        colors[i] == c,
        colors[j] == c,
    ensures
        rank(colors, c, i) < rank(colors, c, j),
{
    assert(colors.take(j) =~= colors.take(i) + (seq![colors[i]] + colors.subrange(i + 1, j)));
    lemma_count_color_concat(colors.take(i), seq![colors[i]] + colors.subrange(i + 1, j), c);
    assert((seq![colors[i]] + colors.subrange(i + 1, j)).first() == colors[i]);
    assert((seq![colors[i]] + colors.subrange(i + 1, j)).drop_first() =~= colors.subrange(
        i + 1,
        j,
    ));
}

/// A half-board digit sits at the local index of its cell: the cell's rank
/// names its digit inside the restriction.
pub proof fn lemma_restrict_rank(colors: Seq<Color>, c: Color, s: Seq<Value>, i: int)
    requires
        s.len() == colors.len(),
        0 <= i < colors.len(),
        colors[i] == c,
    ensures
        rank(colors, c, i) < crate::quasi::restrict(colors, c, s).len(),
        crate::quasi::restrict(colors, c, s)[rank(colors, c, i) as int] == s[i],
    decreases colors.len(),
{
    crate::quasi::lemma_restrict_len(colors, c, s);
    lemma_rank_bound(colors, c, i);
    let r = crate::quasi::restrict(colors, c, s);
    if i == 0 {
        assert(colors.take(0) =~= Seq::<Color>::empty());
        assert(r == seq![s.first()] + crate::quasi::restrict(
            colors.drop_first(),
            c,
            s.drop_first(),
        ));
        assert(r[0] == s[0]);
    } else {
        lemma_restrict_rank(colors.drop_first(), c, s.drop_first(), i - 1);
        assert(colors.take(i) =~= seq![colors[0]] + colors.drop_first().take(i - 1));
        lemma_count_color_concat(seq![colors[0]], colors.drop_first().take(i - 1), c);
        assert(seq![colors[0]].drop_first() =~= Seq::<Color>::empty());
        assert(count_color(Seq::<Color>::empty(), c) == 0);
        let r0 = crate::quasi::restrict(colors.drop_first(), c, s.drop_first());
        if colors.first() == c {
            assert(r == seq![s.first()] + r0);
            assert(rank(colors, c, i) == 1 + rank(colors.drop_first(), c, i - 1));
            assert(r[rank(colors, c, i) as int] == r0[rank(colors.drop_first(), c, i - 1) as int]);
            assert(s.drop_first()[i - 1] == s[i]);
        } else {
            assert(r == r0);
            assert(rank(colors, c, i) == rank(colors.drop_first(), c, i - 1));
            assert(s.drop_first()[i - 1] == s[i]);
        }
    }
}

/// A constraint's cells, restricted to one half and renamed to that half's
/// local indices, in cell order.
pub open spec fn project_cells(cells: Seq<usize>, colors: Seq<Color>, c: Color) -> Seq<usize>
    decreases cells.len(),
{
    if cells.len() == 0 {
        Seq::empty()
    } else {
        let rest = project_cells(cells.drop_last(), colors, c);
        if colors[cells.last() as int] == c {
            rest.push(rank(colors, c, cells.last() as int) as usize)
        } else {
            rest
        }
    }
}

/// Projected cells are valid local indices: distinct, in range, and no more
/// numerous than the original cells; and the red and blue parts together
/// account for every cell.
#[verifier::rlimit(100)]
#[verifier::spinoff_prover]
pub proof fn lemma_project_cells_props(cells: Seq<usize>, colors: Seq<Color>, c: Color)
    requires
        colors.len() <= usize::MAX,
        forall|i: int| 0 <= i < cells.len() ==> (#[trigger] cells[i] as int) < colors.len(),
        cells.no_duplicates(),
    ensures
        project_cells(cells, colors, c).len() <= cells.len(),
        project_cells(cells, colors, c).no_duplicates(),
        forall|p: int|
            0 <= p < project_cells(cells, colors, c).len() ==> (#[trigger] project_cells(
                cells,
                colors,
                c,
            )[p] as nat) < count_color(colors, c),
        forall|p: int|
            0 <= p < project_cells(cells, colors, c).len() ==> exists|i: int|
                0 <= i < cells.len() && colors[#[trigger] cells[i] as int] == c && (
                #[trigger] project_cells(cells, colors, c)[p]) == rank(colors, c, cells[i] as int),
        project_cells(cells, colors, Color::Red).len() + project_cells(
            cells,
            colors,
            Color::Blue,
        ).len() == cells.len(),
    decreases cells.len(),
{
    if cells.len() > 0 {
        let head = cells.drop_last();
        assert(head.no_duplicates());
        lemma_project_cells_props(head, colors, c);
        lemma_project_cells_props(head, colors, Color::Red);
        lemma_project_cells_props(head, colors, Color::Blue);
        let last = cells.last() as int;
        let pr = project_cells(cells, colors, c);
        let pr0 = project_cells(head, colors, c);
        if colors[last] == c {
            lemma_rank_bound(colors, c, last);
            lemma_count_color_le_len(colors.take(last), c);
            assert(rank(colors, c, last) <= last);
            assert(pr == pr0.push(rank(colors, c, last) as usize));
            assert(pr[pr0.len() as int] == rank(colors, c, last));
            assert forall|p: int, q: int|
                0 <= p < pr.len() && 0 <= q < pr.len() && p != q implies pr[p] != pr[q] by {
                if p < pr0.len() && q < pr0.len() {
                    assert(pr[p] == pr0[p]);
                    assert(pr[q] == pr0[q]);
                } else {
                    let other = if p < pr0.len() {
                        p
                    } else {
                        q
                    };
                    if other < pr0.len() {
                        assert(pr[other] == pr0[other]);
                        let i = choose|i: int|
                            0 <= i < head.len() && colors[#[trigger] head[i] as int] == c
                                && project_cells(head, colors, c)[other] == rank(
                                colors,
                                c,
                                head[i] as int,
                            );
                        assert(cells[i] == head[i]);
                        assert(cells[i] != cells.last());
                        lemma_count_color_le_len(colors.take(head[i] as int), c);
                        if (head[i] as int) < last {
                            lemma_rank_injective(colors, c, head[i] as int, last);
                        } else {
                            lemma_rank_injective(colors, c, last, head[i] as int);
                        }
                        assert(pr0[other] != rank(colors, c, last));
                    }
                }
            }
            assert forall|p: int|
                0 <= p < project_cells(cells, colors, c).len() implies exists|i: int|
                0 <= i < cells.len() && colors[#[trigger] cells[i] as int] == c && (
                #[trigger] project_cells(cells, colors, c)[p]) == rank(
                colors,
                c,
                cells[i] as int,
            ) by {
                if p < pr0.len() {
                    assert(pr[p] == pr0[p]);
                    let i = choose|i: int|
                        0 <= i < head.len() && colors[#[trigger] head[i] as int] == c
                            && project_cells(head, colors, c)[p] == rank(colors, c, head[i] as int);
                    assert(cells[i] == head[i]);
                    assert(colors[cells[i] as int] == c && project_cells(cells, colors, c)[p]
                        == rank(colors, c, cells[i] as int));
                } else {
                    assert(colors[cells[cells.len() - 1] as int] == c && project_cells(
                        cells,
                        colors,
                        c,
                    )[p] == rank(colors, c, cells[cells.len() - 1] as int));
                }
            }
        } else {
            assert forall|p: int|
                0 <= p < project_cells(cells, colors, c).len() implies exists|i: int|
                0 <= i < cells.len() && colors[#[trigger] cells[i] as int] == c && (
                #[trigger] project_cells(cells, colors, c)[p]) == rank(
                colors,
                c,
                cells[i] as int,
            ) by {
                assert(pr == pr0);
                let i = choose|i: int|
                    0 <= i < head.len() && colors[#[trigger] head[i] as int] == c && project_cells(
                        head,
                        colors,
                        c,
                    )[p] == rank(colors, c, head[i] as int);
                assert(cells[i] == head[i]);
                assert(colors[cells[i] as int] == c && project_cells(cells, colors, c)[p] == rank(
                    colors,
                    c,
                    cells[i] as int,
                ));
            }
        }
    }
}


/// The largest sum that `k` pairwise distinct digits can have: the top `k`
/// digits added up.
pub open spec fn top_sum(k: int) -> int
    decreases k,
{
    if k <= 0 {
        0
    } else {
        (10 - k) + top_sum(k - 1)
    }
}

/// The smallest sum that `k` pairwise distinct digits, all at least `d`, can
/// have: the `k` digits from `d` on, added up.
pub open spec fn bot_sum(d: int, k: int) -> int
    decreases k,
{
    if k <= 0 {
        0
    } else {
        d + bot_sum(d + 1, k - 1)
    }
}

/// Raising the floor raises the smallest reachable sum.
pub proof fn lemma_bot_sum_mono(d: int, k: int)
    ensures
        bot_sum(d, k) <= bot_sum(d + 1, k),
    decreases k,
{
    if k > 0 {
        lemma_bot_sum_mono(d + 1, k - 1);
    }
}

/// Pairwise distinct digits in `d..=9` are at most `10 - d` many, and their
/// sum lies between the smallest and the largest choice of as many digits.
pub proof fn lemma_distinct_digit_sum_bounds(ds: Seq<Value>, d: int)
    requires
        1 <= d <= 10,
        ds.no_duplicates(),
        forall|i: int| 0 <= i < ds.len() ==> d <= #[trigger] ds[i] <= 9,
    ensures
        ds.len() <= 10 - d,
        bot_sum(d, ds.len() as int) <= crate::game::seq_sum(ds) <= top_sum(ds.len() as int),
    decreases 10 - d,
{
    if ds.len() == 0 {
    } else {
        assert(d <= ds[0] <= 9);
        if ds.contains(d as Value) {
            let j = choose|j: int| 0 <= j < ds.len() && ds[j] == d;
            let rest = ds.remove(j);
            crate::sum_table::lemma_seq_sum_remove(ds, j);
            assert(rest.no_duplicates());
            assert forall|i: int| 0 <= i < rest.len() implies d + 1 <= #[trigger] rest[i] <= 9 by {
                if i < j {
                    assert(rest[i] == ds[i]);
                } else {
                    assert(rest[i] == ds[i + 1]);
                }
            }
            lemma_distinct_digit_sum_bounds(rest, d + 1);
            assert(ds.len() <= 10 - d);
            assert(top_sum(ds.len() as int) == (10 - ds.len()) + top_sum(rest.len() as int));
        } else {
            assert forall|i: int| 0 <= i < ds.len() implies d + 1 <= #[trigger] ds[i] <= 9 by {
                assert(ds[i] != d);
            }
            lemma_distinct_digit_sum_bounds(ds, d + 1);
            lemma_bot_sum_mono(d, ds.len() as int);
        }
    }
}

/// The projector's relaxation is sound: when a run's pairwise distinct digits
/// split between a kept part and a part that went to the other half, the kept
/// digits add up to a value inside the relaxed range — the exact target minus
/// at most the largest and at least the smallest sum the other half's digits
/// could have.
pub proof fn lemma_translate_relaxation_sound(own: Seq<Value>, other: Seq<Value>, target: int)
    requires
        (own + other).no_duplicates(),
        forall|i: int| 0 <= i < other.len() ==> 1 <= #[trigger] other[i] <= 9,
        crate::game::seq_sum(own) + crate::game::seq_sum(other) == target,
    ensures
        target - top_sum(other.len() as int) <= crate::game::seq_sum(own),
        crate::game::seq_sum(own) <= target - bot_sum(1, other.len() as int),
{
    assert(other.no_duplicates()) by {
        assert forall|i: int, j: int|
            0 <= i < other.len() && 0 <= j < other.len() && i != j implies other[i] != other[j] by {
            assert((own + other)[own.len() + i] == other[i]);
            assert((own + other)[own.len() + j] == other[j]);
        }
    }
    lemma_distinct_digit_sum_bounds(other, 1);
}


/// The digits an assignment puts into the cells of one color among the given
/// cells, in cell order.
pub open spec fn color_digits(
    cells: Seq<usize>,
    colors: Seq<Color>,
    c: Color,
    s: Seq<Value>,
) -> Seq<Value>
    decreases cells.len(),
{
    if cells.len() == 0 {
        Seq::empty()
    } else {
        let rest = color_digits(cells.drop_last(), colors, c, s);
        if colors[cells.last() as int] == c {
            rest.push(s[cells.last() as int])
        } else {
            rest
        }
    }
}

/// How a run's digits split between the two halves: counts and sums add up,
/// both parts draw from the run's digits, and a duplicate-free run splits
/// into duplicate-free, disjoint parts.
pub proof fn lemma_color_digits_split(cells: Seq<usize>, colors: Seq<Color>, s: Seq<Value>)
    requires
        s.len() == colors.len(),
        forall|i: int| 0 <= i < cells.len() ==> (#[trigger] cells[i] as int) < colors.len(),
    ensures
        color_digits(cells, colors, Color::Red, s).len() + color_digits(
            cells,
            colors,
            Color::Blue,
            s,
        ).len() == cells.len(),
        crate::game::seq_sum(color_digits(cells, colors, Color::Red, s)) + crate::game::seq_sum(
            color_digits(cells, colors, Color::Blue, s),
        ) == crate::game::seq_sum(crate::game::digits_of(cells, s)),
        forall|x: Value|
            color_digits(cells, colors, Color::Red, s).contains(x)
                ==> crate::game::digits_of(cells, s).contains(x),
        forall|x: Value|
            color_digits(cells, colors, Color::Blue, s).contains(x)
                ==> crate::game::digits_of(cells, s).contains(x),
        crate::game::digits_of(cells, s).to_multiset() == color_digits(
            cells,
            colors,
            Color::Red,
            s,
        ).to_multiset().add(color_digits(cells, colors, Color::Blue, s).to_multiset()),
        crate::game::digits_of(cells, s).no_duplicates() ==> {
            &&& color_digits(cells, colors, Color::Red, s).no_duplicates()
            &&& color_digits(cells, colors, Color::Blue, s).no_duplicates()
            &&& forall|x: Value|
                color_digits(cells, colors, Color::Red, s).contains(x) ==> !color_digits(
                    cells,
                    colors,
                    Color::Blue,
                    s,
                ).contains(x)
        },
    decreases cells.len(),
{
    broadcast use vstd::seq_lib::group_to_multiset_ensures;

    let rd = color_digits(cells, colors, Color::Red, s);
    let bd = color_digits(cells, colors, Color::Blue, s);
    let all = crate::game::digits_of(cells, s);
    if cells.len() == 0 {
        assert(all =~= Seq::<Value>::empty());
        assert(all.to_multiset() =~= rd.to_multiset().add(bd.to_multiset()));
    } else {
        let head = cells.drop_last();
        let c0 = cells.last() as int;
        let v = s[c0];
        lemma_color_digits_split(head, colors, s);
        let rd0 = color_digits(head, colors, Color::Red, s);
        let bd0 = color_digits(head, colors, Color::Blue, s);
        let all0 = crate::game::digits_of(head, s);
        assert(all =~= all0.push(v));
        assert(all.drop_last() =~= all0);
        assert(all.last() == v);
        assert(all == all0.push(v));
        crate::relaxed::lemma_push_contains(all0, v);
        if colors[c0] == Color::Red {
            assert(rd == rd0.push(v));
            assert(bd == bd0);
            assert(rd.drop_last() =~= rd0);
            assert(rd.last() == v);
            crate::relaxed::lemma_push_contains(rd0, v);
        } else {
            assert(bd == bd0.push(v));
            assert(rd == rd0);
            assert(bd.drop_last() =~= bd0);
            assert(bd.last() == v);
            crate::relaxed::lemma_push_contains(bd0, v);
        }
        assert(all.to_multiset() =~= rd.to_multiset().add(bd.to_multiset())) by {
            assert(all.to_multiset() == all0.to_multiset().insert(v));
            if colors[c0] == Color::Red {
                assert(rd.to_multiset() == rd0.to_multiset().insert(v));
            } else {
                assert(bd.to_multiset() == bd0.to_multiset().insert(v));
            }
        }
        assert forall|x: Value| rd.contains(x) implies all.contains(x) by {
            if colors[c0] == Color::Red {
                assert(rd0.push(v).contains(x));
                if rd0.contains(x) {
                    assert(all0.contains(x));
                }
                assert(all0.push(v).contains(x));
            } else {
                assert(rd0.contains(x));
                assert(all0.contains(x));
                assert(all0.push(v).contains(x));
            }
        }
        assert forall|x: Value| bd.contains(x) implies all.contains(x) by {
            if colors[c0] == Color::Red {
                assert(bd0.contains(x));
                assert(all0.contains(x));
                assert(all0.push(v).contains(x));
            } else {
                assert(bd0.push(v).contains(x));
                if bd0.contains(x) {
                    assert(all0.contains(x));
                }
                assert(all0.push(v).contains(x));
            }
        }
        if all.no_duplicates() {
            assert(all0.no_duplicates()) by {
                assert forall|i: int, j: int|
                    0 <= i < all0.len() && 0 <= j < all0.len() && i != j implies all0[i]
                    != all0[j] by {
                    assert(all[i] == all0[i]);
                    assert(all[j] == all0[j]);
                }
            }
            assert(!all0.contains(v)) by {
                if all0.contains(v) {
                    let i = choose|i: int| 0 <= i < all0.len() && all0[i] == v;
                    assert(all[i] == all[all.len() - 1]);
                }
            }
            assert(!rd0.contains(v));
            assert(!bd0.contains(v));
            if colors[c0] == Color::Red {
                crate::relaxed::lemma_push_no_dup(rd0, v);
                assert forall|x: Value| rd.contains(x) implies !bd.contains(x) by {
                    assert(rd0.push(v).contains(x));
                    if rd0.contains(x) {
                        assert(!bd0.contains(x));
                    } else {
                        assert(x == v);
                    }
                }
            } else {
                crate::relaxed::lemma_push_no_dup(bd0, v);
                assert forall|x: Value| rd.contains(x) implies !bd.contains(x) by {
                    assert(rd0.contains(x));
                    assert(!bd0.contains(x));
                    if bd.contains(x) {
                        assert(bd0.push(v).contains(x));
                        assert(x == v);
                        assert(!all0.contains(x));
                    }
                }
            }
        }
    }
}

/// What a half sees of a run is exactly the run's digits of that color: the
/// projected cells, read in the restricted assignment, name the same digits.
pub proof fn lemma_project_digits(cells: Seq<usize>, colors: Seq<Color>, c: Color, s: Seq<Value>)
    requires
        s.len() == colors.len(),
        forall|i: int| 0 <= i < cells.len() ==> (#[trigger] cells[i] as int) < colors.len(),
    ensures
        crate::game::digits_of(project_cells(cells, colors, c), crate::quasi::restrict(colors, c, s))
            == color_digits(cells, colors, c, s),
    decreases cells.len(),
{
    let restricted = crate::quasi::restrict(colors, c, s);
    crate::quasi::lemma_restrict_len(colors, c, s);
    if cells.len() == 0 {
        assert(crate::game::digits_of(project_cells(cells, colors, c), restricted) =~= color_digits(
            cells,
            colors,
            c,
            s,
        ));
    } else {
        let head = cells.drop_last();
        let c0 = cells.last() as int;
        lemma_project_digits(head, colors, c, s);
        if colors[c0] == c {
            lemma_restrict_rank(colors, c, s, c0);
            lemma_count_color_le_len(colors.take(c0), c);
            assert(project_cells(cells, colors, c) == project_cells(head, colors, c).push(
                rank(colors, c, c0) as usize,
            ));
            assert(crate::game::digits_of(project_cells(cells, colors, c), restricted)
                =~= crate::game::digits_of(project_cells(head, colors, c), restricted).push(
                restricted[rank(colors, c, c0) as int],
            ));
            assert(restricted[rank(colors, c, c0) as int] == s[c0]);
            assert(crate::game::digits_of(project_cells(cells, colors, c), restricted)
                =~= color_digits(cells, colors, c, s));
        } else {
            assert(project_cells(cells, colors, c) == project_cells(head, colors, c));
            assert(color_digits(cells, colors, c, s) == color_digits(head, colors, c, s));
        }
    }
}


/// Two duplicate-free digit lists with no digit in common concatenate into a
/// duplicate-free list.
pub proof fn lemma_disjoint_concat_no_dup(a: Seq<Value>, b: Seq<Value>)
    requires
        a.no_duplicates(),
        b.no_duplicates(),
        forall|x: Value| a.contains(x) ==> !b.contains(x),
    ensures
        (a + b).no_duplicates(),
{
    assert forall|i: int, j: int|
        0 <= i < (a + b).len() && 0 <= j < (a + b).len() && i != j implies (a + b)[i] != (a
        + b)[j] by {
        if i < a.len() && j < a.len() {
        } else if i >= a.len() && j >= a.len() {
            assert((a + b)[i] == b[i - a.len()]);
            assert((a + b)[j] == b[j - a.len()]);
        } else {
            let ai = if i < a.len() {
                i
            } else {
                j
            };
            let bj = if i < a.len() {
                j
            } else {
                i
            };
            assert((a + b)[ai] == a[ai]);
            assert((a + b)[bj] == b[bj - a.len()]);
            assert(a.contains(a[ai]));
            if a[ai] == b[bj - a.len()] {
                assert(b.contains(a[ai]));
            }
        }
    }
}

/// The projector is sound for whole solutions: an assignment that satisfies a
/// constraint also satisfies, restricted to either half of the board, the
/// projection of that constraint — the one with the projected cells and the
/// relaxed range that `translate_constraint` computes.
pub proof fn lemma_translated_constraint_satisfied(
    c: Constraint,
    tc: Constraint,
    colors: Seq<Color>,
    col: Color,
    s: Seq<Value>,
)
    requires
        s.len() == colors.len(),
        forall|i: int| 0 <= i < s.len() ==> 1 <= #[trigger] s[i] <= 9,
        forall|i: int| 0 <= i < c.cells@.len() ==> (#[trigger] c.cells@[i] as int) < colors.len(),
        c.spec_satisfied(s),
        tc.cells@ == project_cells(c.cells@, colors, col),
        tc.min == if c.min > top_sum(c.cells@.len() - tc.cells@.len()) {
            c.min - top_sum(c.cells@.len() - tc.cells@.len())
        } else {
            0
        },
        tc.max == if c.max > bot_sum(1, c.cells@.len() - tc.cells@.len()) {
            c.max - bot_sum(1, c.cells@.len() - tc.cells@.len())
        } else {
            0
        },
    ensures
        tc.spec_satisfied(crate::quasi::restrict(colors, col, s)),
{
    let all = crate::game::digits_of(c.cells@, s);
    lemma_color_digits_split(c.cells@, colors, s);
    lemma_project_digits(c.cells@, colors, col, s);
    let own = color_digits(c.cells@, colors, col, s);
    let other = color_digits(c.cells@, colors, col.spec_flip(), s);
    assert forall|x: Value| own.contains(x) implies !other.contains(x) by {
        if col == Color::Red {
        } else {
            if other.contains(x) && own.contains(x) {
                assert(!own.contains(x));
            }
        }
    }
    lemma_disjoint_concat_no_dup(own, other);
    assert forall|i: int| 0 <= i < (own + other).len() implies 1 <= #[trigger] (own + other)[i]
        <= 9 by {
        let x = (own + other)[i];
        if i < own.len() {
            assert(own.contains(x));
        } else {
            assert((own + other)[i] == other[i - own.len()]);
            assert(other.contains(x));
        }
        assert(all.contains(x));
        let j = choose|j: int| 0 <= j < all.len() && all[j] == x;
        assert(all[j] == s[c.cells@[j] as int]);
    }
    assert forall|i: int| 0 <= i < other.len() implies 1 <= #[trigger] other[i] <= 9 by {
        assert((own + other)[own.len() + i] == other[i]);
    }
    lemma_translate_relaxation_sound(own, other, crate::game::seq_sum(all));
    crate::game::lemma_seq_sum_bounds(own);
    assert(own.len() + other.len() == c.cells@.len());
    assert(own.len() == tc.cells@.len()) by {
        assert(crate::game::digits_of(tc.cells@, crate::quasi::restrict(colors, col, s)) == own);
    }
    assert(crate::game::digits_of(tc.cells@, crate::quasi::restrict(colors, col, s)) == own);
    assert(own.no_duplicates());
}


/// Whether every cell of the constraint lies in one half.
pub open spec fn monochromatic(c: Constraint, colors: Seq<Color>) -> bool {
    ||| forall|i: int|
        0 <= i < c.cells@.len() ==> colors[#[trigger] c.cells@[i] as int] == Color::Red
    ||| forall|i: int|
        0 <= i < c.cells@.len() ==> colors[#[trigger] c.cells@[i] as int] == Color::Blue
}

/// Whether two constraints hold the same cells and the same range.
pub open spec fn same_constraint(a: Constraint, b: Constraint) -> bool {
    a.cells@ == b.cells@ && a.min == b.min && a.max == b.max
}

/// A run whose cells all lie in one half keeps all its digits in that half.
pub proof fn lemma_mono_color_digits(cells: Seq<usize>, colors: Seq<Color>, c: Color, s: Seq<Value>)
    requires
        forall|i: int| 0 <= i < cells.len() ==> colors[#[trigger] cells[i] as int] == c,
    ensures
        color_digits(cells, colors, c, s) == crate::game::digits_of(cells, s),
    decreases cells.len(),
{
    if cells.len() == 0 {
        assert(color_digits(cells, colors, c, s) =~= crate::game::digits_of(cells, s));
    } else {
        lemma_mono_color_digits(cells.drop_last(), colors, c, s);
        assert(color_digits(cells, colors, c, s) =~= crate::game::digits_of(cells, s));
    }
}


/// Whether `tc` is `c` projected onto one half: the cells of that color,
/// renamed to local indices, with the range `translate_constraint` computes.
pub open spec fn is_projection(tc: Constraint, c: Constraint, colors: Seq<Color>, col: Color) -> bool {
    &&& tc.cells@ == project_cells(c.cells@, colors, col)
    &&& tc.min == if c.min > top_sum(c.cells@.len() - tc.cells@.len()) {
        c.min - top_sum(c.cells@.len() - tc.cells@.len())
    } else {
        0
    }
    &&& tc.max == if c.max > bot_sum(1, c.cells@.len() - tc.cells@.len()) {
        c.max - bot_sum(1, c.cells@.len() - tc.cells@.len())
    } else {
        0
    }
}

/// Whether some member of `list` has the same cells and range as `c`.
pub open spec fn listed_in(c: Constraint, list: Seq<Constraint>) -> bool {
    exists|k: int| 0 <= k < list.len() && same_constraint(#[trigger] list[k], c)
}

/// Whether `c` is the projection of some listed constraint.
pub open spec fn projection_listed(
    tc: Constraint,
    constraints: Seq<Constraint>,
    colors: Seq<Color>,
    col: Color,
) -> bool {
    exists|j: int|
        0 <= j < constraints.len() && is_projection(tc, #[trigger] constraints[j], colors, col)
}

/// Whether some member of `list` is the projection of `c`.
pub open spec fn holds_projection(
    list: Seq<Constraint>,
    c: Constraint,
    colors: Seq<Color>,
    col: Color,
) -> bool {
    exists|k: int| 0 <= k < list.len() && is_projection(#[trigger] list[k], c, colors, col)
}

/// Whether `list` names some of `constraints`, in order and without reuse.
pub open spec fn sublist_of(list: Seq<Constraint>, constraints: Seq<Constraint>) -> bool {
    exists|srcs: Seq<int>|
        (#[trigger] srcs.len()) == list.len() && (forall|k: int|
            0 <= k < srcs.len() ==> 0 <= #[trigger] srcs[k] < constraints.len()
                && same_constraint(list[k], constraints[srcs[k]])) && (forall|k1: int, k2: int|
            0 <= k1 < k2 < srcs.len() ==> srcs[k1] < srcs[k2])
}


/// A run whose cells all lie in one half projects nothing into the other.
pub proof fn lemma_project_mono_len(cells: Seq<usize>, colors: Seq<Color>, col: Color)
    requires
        forall|i: int| 0 <= i < cells.len() ==> colors[#[trigger] cells[i] as int] == col,
    ensures
        project_cells(cells, colors, col.spec_flip()) == Seq::<usize>::empty(),
    decreases cells.len(),
{
    if cells.len() == 0 {
        assert(project_cells(cells, colors, col.spec_flip()) =~= Seq::<usize>::empty());
    } else {
        lemma_project_mono_len(cells.drop_last(), colors, col);
        assert(colors[cells.last() as int] == col);
        assert(col.spec_flip() != col);
    }
}

/// The outcome of a successful split.
pub struct SplitInput {
    pub colors: Vec<Color>,
    pub index_mapping: Vec<usize>,
    pub red_constraints: Vec<Constraint>,
    pub blue_constraints: Vec<Constraint>,
    pub connections: Vec<Constraint>,
}

impl SplitInput {
    /// Everything the solver needs of a split: the coloring matches the
    /// board, the local index of each cell is its per-color rank, both halves
    /// are inhabited, and every constraint list is well-formed for its cell
    /// universe.
    pub open spec fn wf(self, num_cells: nat) -> bool {
        &&& self.colors@.len() == num_cells
        &&& self.index_mapping@.len() == num_cells
        &&& forall|i: int|
            0 <= i < num_cells ==> #[trigger] self.index_mapping@[i] == rank(
                self.colors@,
                self.colors@[i],
                i,
            )
        &&& 1 <= count_color(self.colors@, Color::Red)
        &&& 1 <= count_color(self.colors@, Color::Blue)
        &&& forall|k: int|
            0 <= k < self.red_constraints@.len() ==> (#[trigger] self.red_constraints@[k]).wf(
                count_color(self.colors@, Color::Red),
            )
        &&& forall|k: int|
            0 <= k < self.blue_constraints@.len() ==> (#[trigger] self.blue_constraints@[k]).wf(
                count_color(self.colors@, Color::Blue),
            )
        &&& forall|k: int|
            0 <= k < self.connections@.len() ==> (#[trigger] self.connections@[k]).wf(num_cells)
    }

    /// How the split relates to the puzzle it came from: the connecting
    /// constraints name some of the input constraints in order; every other
    /// input constraint keeps all its cells in one half; and the red and blue
    /// lists are exactly the non-empty projections of the input constraints.
    pub open spec fn sound_for(self, constraints: Seq<Constraint>) -> bool {
        &&& sublist_of(self.connections@, constraints)
        &&& forall|j: int|
            0 <= j < constraints.len() ==> monochromatic(#[trigger] constraints[j], self.colors@)
                || listed_in(constraints[j], self.connections@)
        &&& forall|k: int|
            0 <= k < self.red_constraints@.len() ==> projection_listed(
                #[trigger] self.red_constraints@[k],
                constraints,
                self.colors@,
                Color::Red,
            )
        &&& forall|k: int|
            0 <= k < self.blue_constraints@.len() ==> projection_listed(
                #[trigger] self.blue_constraints@[k],
                constraints,
                self.colors@,
                Color::Blue,
            )
        &&& forall|j: int|
            0 <= j < constraints.len() && project_cells(
                (#[trigger] constraints[j]).cells@,
                self.colors@,
                Color::Red,
            ).len() >= 1 ==> holds_projection(
                self.red_constraints@,
                constraints[j],
                self.colors@,
                Color::Red,
            )
        &&& forall|j: int|
            0 <= j < constraints.len() && project_cells(
                (#[trigger] constraints[j]).cells@,
                self.colors@,
                Color::Blue,
            ).len() >= 1 ==> holds_projection(
                self.blue_constraints@,
                constraints[j],
                self.colors@,
                Color::Blue,
            )
    }
}

/// A fresh copy of a constraint.
pub fn copy_constraint(c: &Constraint) -> (r: Constraint)
    ensures
        r.cells@ == c.cells@,
        r.min == c.min,
        r.max == c.max,
{
    let mut cells: Vec<usize> = Vec::new();
    let mut i: usize = 0;
    while i < c.cells.len()
        invariant
            i <= c.cells@.len(),
            cells@ == c.cells@.take(i as int),
        decreases c.cells@.len() - i,
    {
        cells.push(c.cells[i]);
        proof {
            assert(cells@ =~= c.cells@.take(i as int + 1));
        }
        i += 1;
    }
    proof {
        assert(c.cells@.take(c.cells@.len() as int) =~= c.cells@);
    }
    Constraint { cells, min: c.min, max: c.max }
}

/// The smallest sum that a number of pairwise distinct digits can have.
fn min_sum_of(k: usize) -> (r: Value)
    requires
        k <= 9,
    ensures
        r == bot_sum(1, k as int),
{
    proof {
        reveal_with_fuel(bot_sum, 11);
    }
    match k {
        0 => 0,
        1 => 1,
        2 => 3,
        3 => 6,
        4 => 10,
        5 => 15,
        6 => 21,
        7 => 28,
        8 => 36,
        _ => 45,
    }
}

/// The largest sum that a number of pairwise distinct digits can have.
fn max_sum_of(k: usize) -> (r: Value)
    requires
        k <= 9,
    ensures
        r == top_sum(k as int),
{
    proof {
        reveal_with_fuel(top_sum, 11);
    }
    match k {
        0 => 0,
        1 => 9,
        2 => 17,
        3 => 24,
        4 => 30,
        5 => 35,
        6 => 39,
        7 => 42,
        8 => 44,
        _ => 45,
    }
}

/// Projects a constraint into one half: keeps only that half's cells, renamed
/// to local indices, and relaxes the sum range by what the cells of the other
/// half could contribute.
pub fn translate_constraint(
    constraint: &Constraint,
    color: Color,
    colors: &Vec<Color>,
    mapping: &Vec<usize>,
) -> (r: Constraint)
    requires
        colors@.len() == mapping@.len(),
        forall|i: int| 0 <= i < constraint.cells@.len() ==> #[trigger] constraint.cells@[i]
            < colors@.len(),
        constraint.cells@.no_duplicates(),
        forall|i: int|
            0 <= i < mapping@.len() ==> #[trigger] mapping@[i] == rank(colors@, colors@[i], i),
        constraint.cells@.len() <= 9,
    ensures
        r.cells@ == project_cells(constraint.cells@, colors@, color),
        r.cells@.len() <= constraint.cells@.len(),
        r.cells@.no_duplicates(),
        forall|p: int|
            0 <= p < r.cells@.len() ==> (#[trigger] r.cells@[p] as nat) < count_color(
                colors@,
                color,
            ),
        r.min == if constraint.min > top_sum(constraint.cells@.len() - r.cells@.len()) {
            constraint.min - top_sum(constraint.cells@.len() - r.cells@.len())
        } else {
            0
        },
        r.max == if constraint.max > bot_sum(1, constraint.cells@.len() - r.cells@.len()) {
            constraint.max - bot_sum(1, constraint.cells@.len() - r.cells@.len())
        } else {
            0
        },
{
    let n = colors.len();
    let mut own: Vec<usize> = Vec::new();
    let mut i: usize = 0;
    while i < constraint.cells.len()
        invariant
            n == colors@.len(),
            mapping@.len() == n,
            forall|j: int| 0 <= j < constraint.cells@.len() ==> #[trigger] constraint.cells@[j]
                < colors@.len(),
            forall|j: int|
                0 <= j < mapping@.len() ==> #[trigger] mapping@[j] == rank(colors@, colors@[j], j),
            i <= constraint.cells@.len(),
            own@ == project_cells(constraint.cells@.take(i as int), colors@, color),
        decreases constraint.cells@.len() - i,
    {
        proof {
            assert(constraint.cells@.take(i as int + 1).drop_last() =~= constraint.cells@.take(
                i as int,
            ));
            assert(constraint.cells@.take(i as int + 1).last() == constraint.cells@[i as int]);
        }
        let cell = constraint.cells[i];
        if colors[cell] == color {
            own.push(mapping[cell]);
        }
        i += 1;
    }
    proof {
        assert(constraint.cells@.take(constraint.cells@.len() as int) =~= constraint.cells@);
        lemma_project_cells_props(constraint.cells@, colors@, color);
    }
    let num_own = own.len();
    let num_other = constraint.cells.len() - num_own;
    let maxes = max_sum_of(num_other);
    let mins = min_sum_of(num_other);
    let new_min = if constraint.min > maxes {
        constraint.min - maxes
    } else {
        0
    };
    let new_max = if constraint.max > mins {
        constraint.max - mins
    } else {
        0
    };
    Constraint { cells: own, min: new_min, max: new_max }
}

/// Colors every cell that the remaining constraints connect to cell 0 red and
/// leaves the rest blue, by saturating rounds: when the rounds stop changing
/// anything, no remaining constraint straddles the two colors.
fn color_components(num_cells: usize, remaining: &Vec<Constraint>) -> (r: Vec<Color>)
    requires
        num_cells >= 1,
        forall|k: int| 0 <= k < remaining@.len() ==> (#[trigger] remaining@[k]).wf(
            num_cells as nat,
        ),
    ensures
        r@.len() == num_cells,
        1 <= count_color(r@, Color::Red),
        forall|k: int| 0 <= k < remaining@.len() ==> monochromatic(
            #[trigger] remaining@[k],
            r@,
        ),
{
    let mut colors: Vec<Color> = Vec::new();
    let mut i: usize = 0;
    while i < num_cells
        invariant
            i <= num_cells,
            colors@.len() == i,
            count_color(colors@, Color::Red) == 0,
        decreases num_cells - i,
    {
        proof {
            lemma_count_color_push(colors@, Color::Blue, Color::Red);
        }
        colors.push(Color::Blue);
        i += 1;
    }
    proof {
        lemma_count_color_update(colors@, 0, Color::Red, Color::Red);
    }
    colors.set(0, Color::Red);
    let mut changed = true;
    while changed
        invariant
            colors@.len() == num_cells,
            1 <= count_color(colors@, Color::Red),
            forall|k: int| 0 <= k < remaining@.len() ==> (#[trigger] remaining@[k]).wf(
                num_cells as nat,
            ),
            !changed ==> forall|k: int| 0 <= k < remaining@.len() ==> monochromatic(
                #[trigger] remaining@[k],
                colors@,
            ),
        decreases 2 * count_color(colors@, Color::Blue) + (if changed {
            1int
        } else {
            0int
        }),
    {
        let ghost blue0 = count_color(colors@, Color::Blue);
        changed = false;
        let mut k: usize = 0;
        while k < remaining.len()
            invariant
                colors@.len() == num_cells,
                1 <= count_color(colors@, Color::Red),
                forall|k2: int| 0 <= k2 < remaining@.len() ==> (#[trigger] remaining@[k2]).wf(
                    num_cells as nat,
                ),
                k <= remaining@.len(),
                count_color(colors@, Color::Blue) <= blue0,
                changed ==> count_color(colors@, Color::Blue) < blue0,
                !changed ==> forall|k2: int| 0 <= k2 < k ==> monochromatic(
                    #[trigger] remaining@[k2],
                    colors@,
                ),
            decreases remaining@.len() - k,
        {
            let constraint = &remaining[k];
            let mut touches = false;
            let mut a: usize = 0;
            while a < constraint.cells.len()
                invariant
                    k < remaining@.len(),
                    constraint == remaining@[k as int],
                    constraint.wf(num_cells as nat),
                    colors@.len() == num_cells,
                    a <= constraint.cells@.len(),
                    !touches ==> forall|a2: int|
                        0 <= a2 < a ==> colors@[#[trigger] constraint.cells@[a2] as int]
                            != Color::Red,
                decreases constraint.cells@.len() - a,
            {
                if colors[constraint.cells[a]] == Color::Red {
                    touches = true;
                }
                a += 1;
            }
            if touches {
                let mut b: usize = 0;
                while b < constraint.cells.len()
                    invariant
                        k < remaining@.len(),
                        constraint == remaining@[k as int],
                        constraint.wf(num_cells as nat),
                        colors@.len() == num_cells,
                        b <= constraint.cells@.len(),
                        1 <= count_color(colors@, Color::Red),
                        count_color(colors@, Color::Blue) <= blue0,
                        changed ==> count_color(colors@, Color::Blue) < blue0,
                        !changed ==> forall|k2: int| 0 <= k2 < k ==> monochromatic(
                            #[trigger] remaining@[k2],
                            colors@,
                        ),
                        !changed ==> forall|b2: int|
                            0 <= b2 < b ==> colors@[#[trigger] constraint.cells@[b2] as int]
                                == Color::Red,
                    decreases constraint.cells@.len() - b,
                {
                    let cell = constraint.cells[b];
                    if colors[cell] == Color::Blue {
                        proof {
                            lemma_count_color_update(colors@, cell as int, Color::Red, Color::Blue);
                            lemma_count_color_update(colors@, cell as int, Color::Red, Color::Red);
                        }
                        colors.set(cell, Color::Red);
                        changed = true;
                    } else {
                        proof {
                            assert(colors@[cell as int] == Color::Red);
                        }
                    }
                    b += 1;
                }
                proof {
                    if !changed {
                        assert(monochromatic(remaining@[k as int], colors@));
                    }
                }
            } else {
                proof {
                    assert forall|a2: int|
                        0 <= a2 < constraint.cells@.len() implies colors@[
                    #[trigger] constraint.cells@[a2] as int] == Color::Blue by {
                        assert(colors@[constraint.cells@[a2] as int] != Color::Red);
                    }
                    assert(monochromatic(remaining@[k as int], colors@));
                }
            }
            k += 1;
        }
    }
    colors
}

/// Assigns each cell its local index inside its half: how many cells of the
/// same color come before it.
fn build_index_mapping(colors: &Vec<Color>) -> (r: Vec<usize>)
    ensures
        r@.len() == colors@.len(),
        forall|i: int| 0 <= i < r@.len() ==> #[trigger] r@[i] == rank(colors@, colors@[i], i),
{
    let mut mapping: Vec<usize> = Vec::new();
    let mut red_counter: usize = 0;
    let mut blue_counter: usize = 0;
    let mut i: usize = 0;
    proof {
        assert(colors@.take(0) =~= Seq::<Color>::empty());
    }
    while i < colors.len()
        invariant
            i <= colors@.len(),
            mapping@.len() == i,
            red_counter + blue_counter == i,
            red_counter == count_color(colors@.take(i as int), Color::Red),
            blue_counter == count_color(colors@.take(i as int), Color::Blue),
            forall|j: int| 0 <= j < i ==> #[trigger] mapping@[j] == rank(colors@, colors@[j], j),
        decreases colors@.len() - i,
    {
        proof {
            assert(colors@.take(i as int + 1) =~= colors@.take(i as int).push(colors@[i as int]));
            lemma_count_color_push(colors@.take(i as int), colors@[i as int], Color::Red);
            lemma_count_color_push(colors@.take(i as int), colors@[i as int], Color::Blue);
        }
        if colors[i] == Color::Red {
            mapping.push(red_counter);
            red_counter += 1;
        } else {
            mapping.push(blue_counter);
            blue_counter += 1;
        }
        i += 1;
    }
    mapping
}

/// Parts the constraints into the picked connecting ones and the rest, as
/// fresh copies.
#[verifier::rlimit(100)]
#[verifier::spinoff_prover]
fn partition_constraints(
    num_cells: usize,
    constraints: &Vec<Constraint>,
    picks: &Vec<usize>,
) -> (r: (Vec<Constraint>, Vec<Constraint>))
    requires
        forall|k: int| 0 <= k < constraints@.len() ==> (#[trigger] constraints@[k]).wf(
            num_cells as nat,
        ),
    ensures
        forall|k2: int| 0 <= k2 < r.0@.len() ==> (#[trigger] r.0@[k2]).wf(num_cells as nat),
        forall|k2: int| 0 <= k2 < r.1@.len() ==> (#[trigger] r.1@[k2]).wf(num_cells as nat),
        sublist_of(r.0@, constraints@),
        forall|kr: int| 0 <= kr < r.1@.len() ==> listed_in(#[trigger] r.1@[kr], constraints@),
        forall|j: int|
            0 <= j < constraints@.len() ==> listed_in(#[trigger] constraints@[j], r.0@)
                || listed_in(constraints@[j], r.1@),
{
    let mut connecting: Vec<Constraint> = Vec::new();
    let mut remaining: Vec<Constraint> = Vec::new();
    let ghost mut csrcs: Seq<int> = Seq::empty();
    let mut k: usize = 0;
    while k < constraints.len()
        invariant
            k <= constraints@.len(),
            forall|k2: int| 0 <= k2 < constraints@.len() ==> (#[trigger] constraints@[k2]).wf(
                num_cells as nat,
            ),
            forall|k2: int| 0 <= k2 < connecting@.len() ==> (#[trigger] connecting@[k2]).wf(
                num_cells as nat,
            ),
            forall|k2: int| 0 <= k2 < remaining@.len() ==> (#[trigger] remaining@[k2]).wf(
                num_cells as nat,
            ),
            csrcs.len() == connecting@.len(),
            forall|kc: int|
                0 <= kc < csrcs.len() ==> 0 <= #[trigger] csrcs[kc] < k && same_constraint(
                    connecting@[kc],
                    constraints@[csrcs[kc]],
                ),
            forall|k1: int, k2: int| 0 <= k1 < k2 < csrcs.len() ==> csrcs[k1] < csrcs[k2],
            forall|kr: int|
                0 <= kr < remaining@.len() ==> listed_in(#[trigger] remaining@[kr], constraints@),
            forall|j: int|
                0 <= j < k ==> listed_in(#[trigger] constraints@[j], connecting@) || listed_in(
                    constraints@[j],
                    remaining@,
                ),
        decreases constraints@.len() - k,
    {
        let mut inpicks = false;
        let mut p: usize = 0;
        while p < picks.len()
            invariant
                p <= picks@.len(),
            decreases picks@.len() - p,
        {
            if picks[p] == k {
                inpicks = true;
            }
            p += 1;
        }
        let ghost conn0 = connecting@;
        let ghost rem0 = remaining@;
        let c = copy_constraint(&constraints[k]);
        proof {
            assert(c.wf(num_cells as nat));
            assert(same_constraint(c, constraints@[k as int]));
        }
        if inpicks {
            connecting.push(c);
            proof {
                csrcs = csrcs.push(k as int);
            }
        } else {
            remaining.push(c);
            proof {
                assert forall|kr: int|
                    0 <= kr < remaining@.len() implies listed_in(
                    #[trigger] remaining@[kr],
                    constraints@,
                ) by {
                    if kr < rem0.len() {
                        assert(remaining@[kr] == rem0[kr]);
                    } else {
                        assert(remaining@[kr] == c);
                        assert(same_constraint(constraints@[k as int], remaining@[kr]));
                    }
                }
            }
        }
        proof {
            assert forall|j: int|
                0 <= j < k + 1 implies listed_in(#[trigger] constraints@[j], connecting@)
                || listed_in(constraints@[j], remaining@) by {
                if j < k {
                    if listed_in(constraints@[j], conn0) {
                        let kc = choose|kc: int|
                            0 <= kc < conn0.len() && same_constraint(
                                #[trigger] conn0[kc],
                                constraints@[j],
                            );
                        assert(same_constraint(connecting@[kc], constraints@[j]));
                    } else {
                        let kr = choose|kr: int|
                            0 <= kr < rem0.len() && same_constraint(
                                #[trigger] rem0[kr],
                                constraints@[j],
                            );
                        assert(same_constraint(remaining@[kr], constraints@[j]));
                    }
                } else {
                    if inpicks {
                        assert(same_constraint(
                            connecting@[connecting@.len() - 1],
                            constraints@[j],
                        ));
                    } else {
                        assert(same_constraint(remaining@[remaining@.len() - 1], constraints@[j]));
                    }
                }
            }
        }
        k += 1;
    }
    proof {
        assert((csrcs.len()) == connecting@.len() && (forall|kc: int|
            0 <= kc < csrcs.len() ==> 0 <= #[trigger] csrcs[kc] < constraints@.len()
                && same_constraint(connecting@[kc], constraints@[csrcs[kc]])) && (forall|
            k1: int,
            k2: int,
        |
            0 <= k1 < k2 < csrcs.len() ==> csrcs[k1] < csrcs[k2]));
        assert(sublist_of(connecting@, constraints@));
    }
    (connecting, remaining)
}

/// Projects every constraint into one half, keeping the non-empty
/// projections: the result is exactly the non-empty projections, each
/// well-formed for the half's cell count.
fn project_all(
    constraints: &Vec<Constraint>,
    colors: &Vec<Color>,
    mapping: &Vec<usize>,
    col: Color,
) -> (r: Vec<Constraint>)
    requires
        colors@.len() == mapping@.len(),
        forall|i: int|
            0 <= i < mapping@.len() ==> #[trigger] mapping@[i] == rank(colors@, colors@[i], i),
        forall|k: int| 0 <= k < constraints@.len() ==> (#[trigger] constraints@[k]).wf(
            colors@.len() as nat,
        ),
    ensures
        forall|k2: int| 0 <= k2 < r@.len() ==> (#[trigger] r@[k2]).wf(count_color(colors@, col)),
        forall|k2: int|
            0 <= k2 < r@.len() ==> projection_listed(#[trigger] r@[k2], constraints@, colors@, col),
        forall|j: int|
            0 <= j < constraints@.len() && project_cells(
                (#[trigger] constraints@[j]).cells@,
                colors@,
                col,
            ).len() >= 1 ==> holds_projection(r@, constraints@[j], colors@, col),
{
    let mut r: Vec<Constraint> = Vec::new();
    let mut k: usize = 0;
    while k < constraints.len()
        invariant
            k <= constraints@.len(),
            colors@.len() == mapping@.len(),
            forall|i: int|
                0 <= i < mapping@.len() ==> #[trigger] mapping@[i] == rank(colors@, colors@[i], i),
            forall|k2: int| 0 <= k2 < constraints@.len() ==> (#[trigger] constraints@[k2]).wf(
                colors@.len() as nat,
            ),
            forall|k2: int| 0 <= k2 < r@.len() ==> (#[trigger] r@[k2]).wf(
                count_color(colors@, col),
            ),
            forall|k2: int|
                0 <= k2 < r@.len() ==> projection_listed(
                    #[trigger] r@[k2],
                    constraints@,
                    colors@,
                    col,
                ),
            forall|j: int|
                0 <= j < k && project_cells(
                    (#[trigger] constraints@[j]).cells@,
                    colors@,
                    col,
                ).len() >= 1 ==> holds_projection(r@, constraints@[j], colors@, col),
        decreases constraints@.len() - k,
    {
        let ghost r0 = r@;
        let c = &constraints[k];
        let tc = translate_constraint(c, col, colors, mapping);
        if tc.cells.len() > 0 {
            proof {
                assert(tc.wf(count_color(colors@, col)));
                assert(is_projection(tc, constraints@[k as int], colors@, col));
            }
            r.push(tc);
        }
        proof {
            assert forall|k2: int|
                0 <= k2 < r@.len() implies projection_listed(
                #[trigger] r@[k2],
                constraints@,
                colors@,
                col,
            ) by {
                if k2 < r0.len() {
                    assert(r@[k2] == r0[k2]);
                    assert(projection_listed(r0[k2], constraints@, colors@, col));
                } else {
                    assert(r@[k2] == tc);
                    assert(is_projection(r@[k2], constraints@[k as int], colors@, col));
                }
            }
            assert forall|j: int|
                0 <= j < k + 1 && project_cells(
                    (#[trigger] constraints@[j]).cells@,
                    colors@,
                    col,
                ).len() >= 1 implies holds_projection(r@, constraints@[j], colors@, col) by {
                if j < k {
                    let k2 = choose|k2: int|
                        0 <= k2 < r0.len() && is_projection(
                            #[trigger] r0[k2],
                            constraints@[j],
                            colors@,
                            col,
                        );
                    assert(r@[k2] == r0[k2]);
                    assert(is_projection(r@[k2], constraints@[j], colors@, col));
                } else {
                    assert(tc.cells@.len() >= 1);
                    assert(r@[r0.len() as int] == tc);
                    assert(is_projection(r@[r0.len() as int], constraints@[j], colors@, col));
                }
            }
        }
        k += 1;
    }
    r
}


/// Flipping every color keeps one-colored runs one-colored.
proof fn lemma_mono_flip(cs: Seq<Constraint>, colors0: Seq<Color>, colors: Seq<Color>)
    requires
        colors.len() == colors0.len(),
        forall|i: int| 0 <= i < colors.len() ==> #[trigger] colors[i] == colors0[i].spec_flip(),
        forall|k: int| 0 <= k < cs.len() ==> monochromatic(#[trigger] cs[k], colors0),
        forall|k: int, i2: int|
            0 <= k < cs.len() && 0 <= i2 < (#[trigger] cs[k]).cells@.len() ==> ((
            #[trigger] cs[k].cells@[i2]) as int) < colors0.len(),
    ensures
        forall|k: int| 0 <= k < cs.len() ==> monochromatic(#[trigger] cs[k], colors),
{
    assert forall|k: int| 0 <= k < cs.len() implies monochromatic(#[trigger] cs[k], colors) by {
        let cells = cs[k].cells@;
        if forall|i2: int| 0 <= i2 < cells.len() ==> colors0[#[trigger] cells[i2] as int]
            == Color::Red {
            assert forall|i2: int| 0 <= i2 < cells.len() implies colors[#[trigger] cells[i2] as int]
                == Color::Blue by {
                assert((cells[i2] as int) < colors0.len());
                assert(colors0[cells[i2] as int] == Color::Red);
            }
        } else {
            assert forall|i2: int| 0 <= i2 < cells.len() implies colors[#[trigger] cells[i2] as int]
                == Color::Red by {
                assert((cells[i2] as int) < colors0.len());
                assert(colors0[cells[i2] as int] == Color::Blue);
            }
        }
    }
}

/// A constraint that is not connecting equals some one-colored remaining
/// constraint, so it is one-colored itself.
proof fn lemma_separation_transfer(
    constraints: Seq<Constraint>,
    connecting: Seq<Constraint>,
    remaining: Seq<Constraint>,
    colors: Seq<Color>,
)
    requires
        forall|j: int|
            0 <= j < constraints.len() ==> listed_in(#[trigger] constraints[j], connecting)
                || listed_in(constraints[j], remaining),
        forall|kr: int| 0 <= kr < remaining.len() ==> monochromatic(
            #[trigger] remaining[kr],
            colors,
        ),
    ensures
        forall|j: int|
            0 <= j < constraints.len() ==> monochromatic(#[trigger] constraints[j], colors)
                || listed_in(constraints[j], connecting),
{
    assert forall|j: int|
        0 <= j < constraints.len() implies monochromatic(#[trigger] constraints[j], colors)
        || listed_in(constraints[j], connecting) by {
        if !listed_in(constraints[j], connecting) {
            let kr = choose|kr: int|
                0 <= kr < remaining.len() && same_constraint(
                    #[trigger] remaining[kr],
                    constraints[j],
                );
            assert(monochromatic(remaining[kr], colors));
            let cells = constraints[j].cells@;
            assert(remaining[kr].cells@ == cells);
            if forall|i2: int|
                0 <= i2 < remaining[kr].cells@.len() ==> colors[(
                #[trigger] remaining[kr].cells@[i2]) as int] == Color::Red {
                assert forall|i2: int| 0 <= i2 < cells.len() implies colors[(
                #[trigger] cells[i2]) as int] == Color::Red by {
                    assert(cells[i2] == remaining[kr].cells@[i2]);
                }
            } else {
                assert forall|i2: int| 0 <= i2 < cells.len() implies colors[(
                #[trigger] cells[i2]) as int] == Color::Blue by {
                    assert(cells[i2] == remaining[kr].cells@[i2]);
                }
            }
        }
    }
}

/// Tries one candidate set of connecting constraints, named by index.
#[verifier::rlimit(100)]
#[verifier::spinoff_prover]
fn try_connecting(num_cells: usize, constraints: &Vec<Constraint>, picks: &Vec<usize>) -> (r:
    Option<SplitInput>)
    requires
        num_cells >= 1,
        forall|k: int| 0 <= k < constraints@.len() ==> (#[trigger] constraints@[k]).wf(
            num_cells as nat,
        ),
    ensures
        r matches Some(sp) ==> sp.wf(num_cells as nat) && sp.sound_for(constraints@),
{
    let (connecting, remaining) = partition_constraints(num_cells, constraints, picks);
    let mut colors = color_components(num_cells, &remaining);
    let blue_count = crate::quasi::count_cells(&colors, Color::Blue);
    if blue_count == 0 {
        return None;
    }
    let red_count = crate::quasi::count_cells(&colors, Color::Red);
    if red_count > blue_count {
        // balance: let the red half be the smaller one
        let ghost colors0 = colors@;
        let mut i: usize = 0;
        let n = colors.len();
        while i < n
            invariant
                colors@.len() == n,
                colors0.len() == n,
                i <= n,
                forall|i2: int| 0 <= i2 < i ==> colors@[i2] == (#[trigger] colors0[i2]).spec_flip(),
                forall|i2: int| i <= i2 < n ==> colors@[i2] == colors0[i2],
            decreases n - i,
        {
            let f = colors[i].flip();
            colors.set(i, f);
            i += 1;
        }
        proof {
            assert forall|k2: int, i2: int|
                0 <= k2 < remaining@.len() && 0 <= i2 < (#[trigger] remaining@[k2]).cells@.len()
                    implies ((#[trigger] remaining@[k2].cells@[i2]) as int) < colors0.len() by {
                assert(remaining@[k2].wf(num_cells as nat));
            }
            lemma_mono_flip(remaining@, colors0, colors@);
        }
    }
    let red_count = crate::quasi::count_cells(&colors, Color::Red);
    let blue_count = crate::quasi::count_cells(&colors, Color::Blue);
    if red_count == 0 || blue_count == 0 {
        return None;
    }
    let mapping = build_index_mapping(&colors);
    // every constraint, the connecting ones included, is projected into each half
    let red_constraints = project_all(constraints, &colors, &mapping, Color::Red);
    let blue_constraints = project_all(constraints, &colors, &mapping, Color::Blue);
    proof {
        lemma_separation_transfer(constraints@, connecting@, remaining@, colors@);
    }
    let sp = SplitInput { colors, index_mapping: mapping, red_constraints, blue_constraints, connections: connecting };
    proof {
        assert(sp.sound_for(constraints@));
    }
    Some(sp)
}

/// Looks for a split, trying connecting sets of size zero, one, and two, and
/// keeps the first that leaves both halves inhabited. Larger connecting sets
/// are not tried: their exhaustive enumeration grows combinatorially, and an
/// unsplit puzzle is simply handed to the base solver. So `None` promises
/// only that no candidate set of the tried sizes separated the board; the
/// solver's correctness never rests on why a split was not found.
pub fn split(num_cells: usize, constraints: &Vec<Constraint>) -> (r: Option<SplitInput>)
    requires
        forall|k: int| 0 <= k < constraints@.len() ==> (#[trigger] constraints@[k]).wf(
            num_cells as nat,
        ),
    ensures
        r matches Some(sp) ==> sp.wf(num_cells as nat) && sp.sound_for(constraints@),
{
    if num_cells == 0 || constraints.len() == 0 {
        return None;
    }
    let empty: Vec<usize> = Vec::new();
    let r0 = try_connecting(num_cells, constraints, &empty);
    if r0.is_some() {
        return r0;
    }
    let mut a: usize = 0;
    while a < constraints.len()
        invariant
            num_cells >= 1,
            forall|k: int| 0 <= k < constraints@.len() ==> (#[trigger] constraints@[k]).wf(
                num_cells as nat,
            ),
        decreases constraints@.len() - a,
    {
        let mut picks: Vec<usize> = Vec::new();
        picks.push(a);
        let r1 = try_connecting(num_cells, constraints, &picks);
        if r1.is_some() {
            return r1;
        }
        a += 1;
    }
    let mut a: usize = 0;
    while a < constraints.len()
        invariant
            num_cells >= 1,
            forall|k: int| 0 <= k < constraints@.len() ==> (#[trigger] constraints@[k]).wf(
                num_cells as nat,
            ),
        decreases constraints@.len() - a,
    {
        let mut b: usize = a + 1;
        while b < constraints.len()
            invariant
                num_cells >= 1,
                forall|k: int| 0 <= k < constraints@.len() ==> (#[trigger] constraints@[k]).wf(
                    num_cells as nat,
                ),
            decreases constraints@.len() - b,
        {
            let mut picks: Vec<usize> = Vec::new();
            picks.push(a);
            picks.push(b);
            let r2 = try_connecting(num_cells, constraints, &picks);
            if r2.is_some() {
                return r2;
            }
            b += 1;
        }
        a += 1;
    }
    None
}

} // verus!
