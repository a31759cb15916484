//! The lazy solution algebra. A `QuasiSolution` stands for a whole set of
//! concrete solutions without materializing it: a `Plus` node is a union of
//! alternatives, a `Product` node a cartesian merge of the solutions of two
//! disjoint halves of the board, with a per-cell color tag recording which
//! half each cell came from.

use crate::bignum::{big_add, big_from_u64, big_mul, big_nat};
use crate::game::{Solution, Value};
use vstd::prelude::*;

verus! {

/// Which half of a split board a cell belongs to.
#[derive(Clone, Copy, PartialEq, Eq, Structural)]
pub enum Color {
    Red,
    Blue,
}

impl Color {
    /// The other color.
    pub fn flip(self) -> (r: Color)
        ensures
            r == self.spec_flip(),
    {
        match self {
            Color::Red => Color::Blue,
            Color::Blue => Color::Red,
        }
    }

    /// The other color.
    pub open spec fn spec_flip(self) -> Color {
        match self {
            Color::Red => Color::Blue,
            Color::Blue => Color::Red,
        }
    }
}

/// How many entries of `colors` have color `c`.
pub open spec fn count_color(colors: Seq<Color>, c: Color) -> nat
    decreases colors.len(),
{
    if colors.len() == 0 {
        0
    } else {
        (if colors.first() == c {
            1nat
        } else {
            0nat
        }) + count_color(colors.drop_first(), c)
    }
}

/// A lazily represented set of solutions.
pub enum QuasiSolution {
    Concrete(Solution),
    Plus(Vec<QuasiSolution>),
    Product { colors: Vec<Color>, red: Box<QuasiSolution>, blue: Box<QuasiSolution> },
}

/// One merged assignment: the next digit is drawn from `red` or from `blue`
/// as the cell's color demands.
pub open spec fn interleave(colors: Seq<Color>, red: Seq<Value>, blue: Seq<Value>) -> Seq<Value>
    decreases colors.len(),
{
    if colors.len() == 0 {
        Seq::empty()
    } else if colors.first() == Color::Red {
        if red.len() > 0 {
            seq![red.first()] + interleave(colors.drop_first(), red.drop_first(), blue)
        } else {
            Seq::empty()
        }
    } else {
        if blue.len() > 0 {
            seq![blue.first()] + interleave(colors.drop_first(), red, blue.drop_first())
        } else {
            Seq::empty()
        }
    }
}

/// All merges of one red solution with each solution of `bs`, in order.
pub open spec fn row_sols(colors: Seq<Color>, red: Seq<Value>, bs: Seq<Seq<Value>>) -> Seq<
    Seq<Value>,
> {
    bs.map_values(|b: Seq<Value>| interleave(colors, red, b))
}

/// All merges of each red solution with each blue solution, red-major.
pub open spec fn product_sols(colors: Seq<Color>, rs: Seq<Seq<Value>>, bs: Seq<Seq<Value>>) -> Seq<
    Seq<Value>,
>
    decreases rs.len(),
{
    if rs.len() == 0 {
        Seq::empty()
    } else {
        row_sols(colors, rs.first(), bs) + product_sols(colors, rs.drop_first(), bs)
    }
}

/// The solutions a quasi-solution stands for, in build order.
pub open spec fn qsols(q: QuasiSolution) -> Seq<Seq<Value>>
    decreases q,
{
    match q {
        QuasiSolution::Concrete(s) => seq![s@],
        QuasiSolution::Plus(children) => plus_sols(children@),
        QuasiSolution::Product { colors, red, blue } => product_sols(
            colors@,
            qsols(*red),
            qsols(*blue),
        ),
    }
}

/// The concatenated solutions of a list of quasi-solutions.
pub open spec fn plus_sols(children: Seq<QuasiSolution>) -> Seq<Seq<Value>>
    decreases children,
{
    if children.len() == 0 {
        Seq::empty()
    } else {
        qsols(children.first()) + plus_sols(children.drop_first())
    }
}

/// Internal consistency of a quasi-solution: inside every `Product`, the red
/// solutions are exactly as long as the number of red cells, and likewise for
/// blue, so that the two halves can be interleaved.
pub open spec fn qlen_ok(q: QuasiSolution) -> bool
    decreases q,
{
    match q {
        QuasiSolution::Concrete(_) => true,
        QuasiSolution::Plus(children) => forall|i: int|
            0 <= i < children@.len() ==> qlen_ok(#[trigger] children@[i]),
        QuasiSolution::Product { colors, red, blue } => {
            &&& qlen_ok(*red)
            &&& qlen_ok(*blue)
            &&& forall|s: Seq<Value>|
                qsols(*red).contains(s) ==> s.len() == count_color(colors@, Color::Red)
            &&& forall|s: Seq<Value>|
                qsols(*blue).contains(s) ==> s.len() == count_color(colors@, Color::Blue)
        },
    }
}

/// A product has one merged solution for each pair of halves.
pub proof fn lemma_product_sols_len(colors: Seq<Color>, rs: Seq<Seq<Value>>, bs: Seq<Seq<Value>>)
    ensures
        product_sols(colors, rs, bs).len() == rs.len() * bs.len(),
    decreases rs.len(),
{
    if rs.len() == 0 {
        assert(rs.len() * bs.len() == 0) by (nonlinear_arith)
            requires
                rs.len() == 0,
        ;
    } else {
        lemma_product_sols_len(colors, rs.drop_first(), bs);
        assert(rs.len() * bs.len() == bs.len() + (rs.len() - 1) * bs.len()) by (nonlinear_arith);
    }
}

impl QuasiSolution {
    /// How many solutions this quasi-solution stands for, counted without
    /// building them.
    pub fn size(&self) -> (r: num_bigint::BigUint)
        ensures
            big_nat(r) == qsols(*self).len(),
        decreases *self, 0int,
    {
        match self {
            QuasiSolution::Concrete(s) => {
                proof {
                    assert(qsols(*self) =~= seq![s@]);
                }
                big_from_u64(1)
            },
            QuasiSolution::Plus(children) => {
                proof {
                    assert(decreases_to!(*self => *children));
                    assert(decreases_to!(*children => children@));
                    assert(children@.skip(0) =~= children@);
                }
                size_plus(children, 0)
            },
            QuasiSolution::Product { colors, red, blue } => {
                let r = red.size();
                let b = blue.size();
                proof {
                    lemma_product_sols_len(colors@, qsols(**red), qsols(**blue));
                }
                big_mul(&r, &b)
            },
        }
    }
}

/// How many solutions the children from position `from` on stand for.
fn size_plus(children: &Vec<QuasiSolution>, from: usize) -> (r: num_bigint::BigUint)
    requires
        from <= children@.len(),
    ensures
        big_nat(r) == plus_sols(children@.skip(from as int)).len(),
    decreases children@, children@.len() - from,
{
    if from == children.len() {
        proof {
            assert(children@.skip(from as int) =~= Seq::<QuasiSolution>::empty());
        }
        big_from_u64(0)
    } else {
        proof {
            assert(decreases_to!(children@ => children@[from as int]));
            assert(children@.skip(from as int).first() == children@[from as int]);
            assert(children@.skip(from as int).drop_first() =~= children@.skip(from as int + 1));
        }
        let head = children[from].size();
        let rest = size_plus(children, from + 1);
        big_add(&head, &rest)
    }
}


/// The solutions of a list of materialized assignments.
pub open spec fn sol_views(ss: Seq<Solution>) -> Seq<Seq<Value>> {
    ss.map_values(|v: Solution| v@)
}

/// Every cell is either red or blue.
pub proof fn lemma_count_color_total(colors: Seq<Color>)
    ensures
        count_color(colors, Color::Red) + count_color(colors, Color::Blue) == colors.len(),
    decreases colors.len(),
{
    if colors.len() > 0 {
        lemma_count_color_total(colors.drop_first());
    }
}

/// How many cells have the given color.
pub fn count_cells(colors: &Vec<Color>, c: Color) -> (r: usize)
    ensures
        r == count_color(colors@, c),
{
    let mut r: usize = 0;
    let mut i: usize = 0;
    proof {
        assert(colors@.skip(0) =~= colors@);
    }
    while i < colors.len()
        invariant
            i <= colors@.len(),
            r <= i,
            r + count_color(colors@.skip(i as int), c) == count_color(colors@, c),
        decreases colors@.len() - i,
    {
        proof {
            assert(colors@.skip(i as int).first() == colors@[i as int]);
            assert(colors@.skip(i as int).drop_first() =~= colors@.skip(i as int + 1));
        }
        if colors[i] == c {
            r += 1;
        }
        i += 1;
    }
    proof {
        assert(colors@.skip(colors@.len() as int) =~= Seq::<Color>::empty());
    }
    r
}

/// A copy of a color tag list.
pub fn copy_colors(colors: &Vec<Color>) -> (r: Vec<Color>)
    ensures
        r@ == colors@,
{
    let mut r: Vec<Color> = Vec::new();
    let mut i: usize = 0;
    while i < colors.len()
        invariant
            i <= colors@.len(),
            r@ == colors@.take(i as int),
        decreases colors@.len() - i,
    {
        r.push(colors[i]);
        proof {
            assert(r@ =~= colors@.take(i as int + 1));
        }
        i += 1;
    }
    proof {
        assert(colors@.take(colors@.len() as int) =~= colors@);
    }
    r
}

/// Merges one red and one blue assignment into a single one, drawing the next
/// digit from the half that the cell's color names.
pub fn interleave_exec(colors: &Vec<Color>, red: &Vec<Value>, blue: &Vec<Value>) -> (r: Vec<Value>)
    requires
        count_color(colors@, Color::Red) == red@.len(),
        count_color(colors@, Color::Blue) == blue@.len(),
    ensures
        r@ == interleave(colors@, red@, blue@),
{
    let mut r: Vec<Value> = Vec::new();
    let mut i: usize = 0;
    let mut ri: usize = 0;
    let mut bi: usize = 0;
    proof {
        assert(colors@.skip(0) =~= colors@);
        assert(red@.skip(0) =~= red@);
        assert(blue@.skip(0) =~= blue@);
        assert(Seq::<Value>::empty() + interleave(colors@, red@, blue@) =~= interleave(
            colors@,
            red@,
            blue@,
        ));
    }
    while i < colors.len()
        invariant
            i <= colors@.len(),
            ri <= red@.len(),
            bi <= blue@.len(),
            ri + bi == i,
            count_color(colors@.skip(i as int), Color::Red) == red@.len() - ri,
            count_color(colors@.skip(i as int), Color::Blue) == blue@.len() - bi,
            interleave(colors@, red@, blue@) == r@ + interleave(
                colors@.skip(i as int),
                red@.skip(ri as int),
                blue@.skip(bi as int),
            ),
        decreases colors@.len() - i,
    {
        let ghost r0 = r@;
        proof {
            assert(colors@.skip(i as int).first() == colors@[i as int]);
            assert(colors@.skip(i as int).drop_first() =~= colors@.skip(i as int + 1));
        }
        if colors[i] == Color::Red {
            proof {
                assert(red@.len() - ri >= 1);
                assert(red@.skip(ri as int).first() == red@[ri as int]);
                assert(red@.skip(ri as int).drop_first() =~= red@.skip(ri as int + 1));
                assert(r0 + (seq![red@[ri as int]] + interleave(
                    colors@.skip(i as int + 1),
                    red@.skip(ri as int + 1),
                    blue@.skip(bi as int),
                )) =~= r0.push(red@[ri as int]) + interleave(
                    colors@.skip(i as int + 1),
                    red@.skip(ri as int + 1),
                    blue@.skip(bi as int),
                ));
            }
            r.push(red[ri]);
            ri += 1;
        } else {
            proof {
                assert(blue@.len() - bi >= 1);
                assert(blue@.skip(bi as int).first() == blue@[bi as int]);
                assert(blue@.skip(bi as int).drop_first() =~= blue@.skip(bi as int + 1));
                assert(r0 + (seq![blue@[bi as int]] + interleave(
                    colors@.skip(i as int + 1),
                    red@.skip(ri as int),
                    blue@.skip(bi as int + 1),
                )) =~= r0.push(blue@[bi as int]) + interleave(
                    colors@.skip(i as int + 1),
                    red@.skip(ri as int),
                    blue@.skip(bi as int + 1),
                ));
            }
            r.push(blue[bi]);
            bi += 1;
        }
        i += 1;
    }
    proof {
        assert(colors@.skip(colors@.len() as int) =~= Seq::<Color>::empty());
        assert(r@ + interleave(
            colors@.skip(colors@.len() as int),
            red@.skip(ri as int),
            blue@.skip(bi as int),
        ) =~= r@);
    }
    r
}


/// Lists whose members stand for the same solutions stand for the same
/// solutions overall.
pub proof fn lemma_plus_sols_pointwise(a: Seq<QuasiSolution>, b: Seq<QuasiSolution>)
    requires
        a.len() == b.len(),
        forall|i: int| 0 <= i < a.len() ==> qsols(#[trigger] a[i]) == qsols(b[i]),
    ensures
        plus_sols(a) == plus_sols(b),
    decreases a.len(),
{
    if a.len() > 0 {
        assert(qsols(a[0]) == qsols(b[0]));
        assert forall|i: int|
            0 <= i < a.drop_first().len() implies qsols(#[trigger] a.drop_first()[i]) == qsols(
            b.drop_first()[i],
        ) by {
            assert(a.drop_first()[i] == a[i + 1]);
            assert(b.drop_first()[i] == b[i + 1]);
            assert(qsols(a[i + 1]) == qsols(b[i + 1]));
        }
        lemma_plus_sols_pointwise(a.drop_first(), b.drop_first());
    }
}

impl QuasiSolution {
    /// Materializes every solution this tree stands for, in build order.
    pub fn build(&self) -> (r: Vec<Solution>)
        requires
            qlen_ok(*self),
        ensures
            sol_views(r@) == qsols(*self),
        decreases *self, 1int,
    {
        match self {
            QuasiSolution::Concrete(s) => {
                let mut r: Vec<Solution> = Vec::new();
                let c = crate::game::copy_solution(s);
                r.push(c);
                proof {
                    assert(sol_views(r@) =~= qsols(*self));
                }
                r
            },
            QuasiSolution::Plus(children) => {
                proof {
                    assert(decreases_to!(*self => *children));
                    assert(decreases_to!(*children => children@));
                    assert(children@.skip(0) =~= children@);
                }
                build_plus(children, 0)
            },
            QuasiSolution::Product { colors, red, blue } => {
                let rs = red.build();
                let bs = blue.build();
                let ghost crs = qsols(**red);
                let ghost cbs = qsols(**blue);
                proof {
                    assert forall|k: int| 0 <= k < rs@.len() implies (#[trigger] rs@[k])@.len()
                        == count_color(colors@, Color::Red) by {
                        assert(sol_views(rs@)[k] == rs@[k]@);
                        assert(crs.contains(crs[k]));
                    }
                    assert forall|k: int| 0 <= k < bs@.len() implies (#[trigger] bs@[k])@.len()
                        == count_color(colors@, Color::Blue) by {
                        assert(sol_views(bs@)[k] == bs@[k]@);
                        assert(cbs.contains(cbs[k]));
                    }
                }
                let mut out: Vec<Solution> = Vec::new();
                let mut i: usize = 0;
                proof {
                    assert(crs.skip(0) =~= crs);
                    assert(sol_views(out@) + product_sols(colors@, crs, cbs) =~= product_sols(
                        colors@,
                        crs,
                        cbs,
                    ));
                }
                while i < rs.len()
                    invariant
                        i <= rs@.len(),
                        sol_views(rs@) == crs,
                        sol_views(bs@) == cbs,
                        forall|k: int|
                            0 <= k < rs@.len() ==> (#[trigger] rs@[k])@.len() == count_color(
                                colors@,
                                Color::Red,
                            ),
                        forall|k: int|
                            0 <= k < bs@.len() ==> (#[trigger] bs@[k])@.len() == count_color(
                                colors@,
                                Color::Blue,
                            ),
                        product_sols(colors@, crs, cbs) == sol_views(out@) + product_sols(
                            colors@,
                            crs.skip(i as int),
                            cbs,
                        ),
                    decreases rs@.len() - i,
                {
                    let ghost out_i = sol_views(out@);
                    proof {
                        assert(crs.skip(i as int).first() == crs[i as int]);
                        assert(crs.skip(i as int).drop_first() =~= crs.skip(i as int + 1));
                        assert(rs@[i as int]@ == crs[i as int]);
                        assert(row_sols(colors@, crs[i as int], cbs).take(0) =~= Seq::<
                            Seq<Value>,
                        >::empty());
                        assert(out_i + row_sols(colors@, crs[i as int], cbs).take(0) =~= out_i);
                    }
                    let mut j: usize = 0;
                    while j < bs.len()
                        invariant
                            j <= bs@.len(),
                            i < rs@.len(),
                            sol_views(rs@) == crs,
                            sol_views(bs@) == cbs,
                            rs@[i as int]@.len() == count_color(colors@, Color::Red),
                            forall|k: int|
                                0 <= k < bs@.len() ==> (#[trigger] bs@[k])@.len() == count_color(
                                    colors@,
                                    Color::Blue,
                                ),
                            sol_views(out@) == out_i + row_sols(colors@, crs[i as int], cbs).take(
                                j as int,
                            ),
                        decreases bs@.len() - j,
                    {
                        let ghost prev = out@;
                        let merged = interleave_exec(colors, &rs[i], &bs[j]);
                        proof {
                            assert(bs@[j as int]@ == cbs[j as int]);
                            assert(merged@ == interleave(colors@, crs[i as int], cbs[j as int]));
                            assert(row_sols(colors@, crs[i as int], cbs)[j as int] == interleave(
                                colors@,
                                crs[i as int],
                                cbs[j as int],
                            ));
                        }
                        out.push(merged);
                        proof {
                            assert(sol_views(out@) =~= sol_views(prev).push(merged@));
                            assert(sol_views(out@) =~= out_i + row_sols(
                                colors@,
                                crs[i as int],
                                cbs,
                            ).take(j as int + 1));
                        }
                        j += 1;
                    }
                    proof {
                        assert(row_sols(colors@, crs[i as int], cbs).take(cbs.len() as int)
                            =~= row_sols(colors@, crs[i as int], cbs));
                        assert(sol_views(out@) + product_sols(colors@, crs.skip(i as int + 1), cbs)
                            =~= out_i + (row_sols(colors@, crs[i as int], cbs) + product_sols(
                            colors@,
                            crs.skip(i as int + 1),
                            cbs,
                        )));
                    }
                    i += 1;
                }
                proof {
                    assert(crs.skip(rs@.len() as int) =~= Seq::<Seq<Value>>::empty());
                    assert(sol_views(out@) + product_sols(colors@, crs.skip(rs@.len() as int), cbs)
                        =~= sol_views(out@));
                }
                out
            },
        }
    }

    /// A structurally fresh tree standing for the same solutions.
    pub fn duplicate(&self) -> (r: QuasiSolution)
        ensures
            qsols(r) == qsols(*self),
            qlen_ok(*self) ==> qlen_ok(r),
        decreases *self, 1int,
    {
        match self {
            QuasiSolution::Concrete(s) => {
                let c = crate::game::copy_solution(s);
                let r = QuasiSolution::Concrete(c);
                proof {
                    assert(qsols(r) =~= qsols(*self));
                }
                r
            },
            QuasiSolution::Plus(children) => {
                proof {
                    assert(decreases_to!(*self => *children));
                    assert(decreases_to!(*children => children@));
                }
                let copies = duplicate_plus(children, 0);
                proof {
                    assert forall|k: int|
                        0 <= k < copies@.len() implies qsols(#[trigger] copies@[k]) == qsols(
                        children@[k],
                    ) by {}
                    lemma_plus_sols_pointwise(copies@, children@);
                }
                QuasiSolution::Plus(copies)
            },
            QuasiSolution::Product { colors, red, blue } => {
                let c = copy_colors(colors);
                let r2 = Box::new(red.duplicate());
                let b2 = Box::new(blue.duplicate());
                QuasiSolution::Product { colors: c, red: r2, blue: b2 }
            },
        }
    }
}

/// All solutions of the children from position `from` on, materialized.
fn build_plus(children: &Vec<QuasiSolution>, from: usize) -> (r: Vec<Solution>)
    requires
        from <= children@.len(),
        forall|i: int| from <= i < children@.len() ==> qlen_ok(#[trigger] children@[i]),
    ensures
        sol_views(r@) == plus_sols(children@.skip(from as int)),
    decreases children@, children@.len() - from,
{
    if from == children.len() {
        proof {
            assert(children@.skip(from as int) =~= Seq::<QuasiSolution>::empty());
            assert(sol_views(Seq::<Solution>::empty()) =~= plus_sols(
                children@.skip(from as int),
            ));
        }
        Vec::new()
    } else {
        proof {
            assert(decreases_to!(children@ => children@[from as int]));
            assert(children@.skip(from as int).first() == children@[from as int]);
            assert(children@.skip(from as int).drop_first() =~= children@.skip(from as int + 1));
        }
        let mut head = children[from].build();
        let mut rest = build_plus(children, from + 1);
        let ghost h = head@;
        let ghost t = rest@;
        head.append(&mut rest);
        proof {
            assert(sol_views(h + t) =~= sol_views(h) + sol_views(t));
        }
        head
    }
}

/// Fresh copies of the children from position `from` on.
fn duplicate_plus(children: &Vec<QuasiSolution>, from: usize) -> (r: Vec<QuasiSolution>)
    requires
        from <= children@.len(),
    ensures
        r@.len() == children@.len() - from,
        forall|k: int|
            0 <= k < r@.len() ==> qsols(#[trigger] r@[k]) == qsols(children@[from + k]) && (qlen_ok(
                children@[from + k],
            ) ==> qlen_ok(r@[k])),
    decreases children@, children@.len() - from,
{
    if from == children.len() {
        Vec::new()
    } else {
        proof {
            assert(decreases_to!(children@ => children@[from as int]));
        }
        let head = children[from].duplicate();
        let rest = duplicate_plus(children, from + 1);
        let mut r: Vec<QuasiSolution> = Vec::new();
        r.push(head);
        let mut rest = rest;
        r.append(&mut rest);
        r
    }
}


/// A fully simplified tree: no union of exactly one alternative, and no
/// product both of whose halves hold exactly one solution.
pub open spec fn simplified_form(q: QuasiSolution) -> bool
    decreases q,
{
    match q {
        QuasiSolution::Concrete(_) => true,
        QuasiSolution::Plus(children) => children@.len() != 1 && forall|i: int|
            0 <= i < children@.len() ==> simplified_form(#[trigger] children@[i]),
        QuasiSolution::Product { colors, red, blue } => simplified_form(*red) && simplified_form(
            *blue,
        ) && !(qsols(*red).len() == 1 && qsols(*blue).len() == 1),
    }
}

impl QuasiSolution {
    /// An equivalent but flatter tree: single-alternative unions disappear,
    /// and a product of two single solutions is merged into one concrete
    /// solution.
    pub fn simplify(&self) -> (r: QuasiSolution)
        requires
            qlen_ok(*self),
        ensures
            qsols(r) == qsols(*self),
            qlen_ok(r),
            simplified_form(r),
        decreases *self, 1int,
    {
        match self {
            QuasiSolution::Concrete(s) => {
                let c = crate::game::copy_solution(s);
                let r = QuasiSolution::Concrete(c);
                proof {
                    assert(qsols(r) =~= qsols(*self));
                }
                r
            },
            QuasiSolution::Plus(children) => {
                proof {
                    assert(decreases_to!(*self => *children));
                    assert(decreases_to!(*children => children@));
                }
                let mut simplified = simplify_plus(children, 0);
                proof {
                    lemma_plus_sols_pointwise(simplified@, children@);
                }
                if simplified.len() == 1 {
                    let ghost before = simplified@;
                    let only = simplified.pop().unwrap();
                    proof {
                        assert(only == before[0]);
                        assert(children@.drop_first() =~= Seq::<QuasiSolution>::empty());
                        assert(qsols(only) + plus_sols(children@.drop_first()) =~= qsols(only));
                        assert(qsols(only) == qsols(children@[0]));
                    }
                    only
                } else {
                    QuasiSolution::Plus(simplified)
                }
            },
            QuasiSolution::Product { colors, red, blue } => {
                let red2 = red.simplify();
                let blue2 = blue.simplify();
                let red_single = {
                    let s = red2.size();
                    crate::bignum::big_is_one(&s)
                };
                let blue_single = {
                    let s = blue2.size();
                    crate::bignum::big_is_one(&s)
                };
                if red_single && blue_single {
                    let rs = red2.build();
                    let bs = blue2.build();
                    proof {
                        assert(rs@.len() == 1 && bs@.len() == 1);
                        assert(rs@[0]@ == qsols(**red)[0]);
                        assert(bs@[0]@ == qsols(**blue)[0]);
                        assert(qsols(**red).contains(qsols(**red)[0]));
                        assert(qsols(**blue).contains(qsols(**blue)[0]));
                    }
                    let merged = interleave_exec(colors, &rs[0], &bs[0]);
                    let r = QuasiSolution::Concrete(merged);
                    proof {
                        let crs = qsols(**red);
                        let cbs = qsols(**blue);
                        assert(crs.drop_first() =~= Seq::<Seq<Value>>::empty());
                        assert(row_sols(colors@, crs[0], cbs)[0] == interleave(
                            colors@,
                            crs[0],
                            cbs[0],
                        ));
                        assert(row_sols(colors@, crs[0], cbs) =~= seq![interleave(
                            colors@,
                            crs[0],
                            cbs[0],
                        )]);
                        assert(product_sols(colors@, crs.drop_first(), cbs) =~= Seq::<
                            Seq<Value>,
                        >::empty());
                        assert(product_sols(colors@, crs, cbs) =~= row_sols(colors@, crs[0], cbs));
                        assert(qsols(r) =~= qsols(*self));
                    }
                    r
                } else {
                    let c = copy_colors(colors);
                    QuasiSolution::Product { colors: c, red: Box::new(red2), blue: Box::new(blue2) }
                }
            },
        }
    }
}

/// Simplified copies of the children from position `from` on.
fn simplify_plus(children: &Vec<QuasiSolution>, from: usize) -> (r: Vec<QuasiSolution>)
    requires
        from <= children@.len(),
        forall|i: int| from <= i < children@.len() ==> qlen_ok(#[trigger] children@[i]),
    ensures
        r@.len() == children@.len() - from,
        forall|k: int|
            0 <= k < r@.len() ==> qsols(#[trigger] r@[k]) == qsols(children@[from + k]) && qlen_ok(
                r@[k],
            ) && simplified_form(r@[k]),
    decreases children@, children@.len() - from,
{
    if from == children.len() {
        Vec::new()
    } else {
        proof {
            assert(decreases_to!(children@ => children@[from as int]));
        }
        let head = children[from].simplify();
        let mut rest = simplify_plus(children, from + 1);
        let mut r: Vec<QuasiSolution> = Vec::new();
        r.push(head);
        r.append(&mut rest);
        r
    }
}


/// A merged board is as long as its color tags when the halves fit.
pub proof fn lemma_interleave_len(colors: Seq<Color>, red: Seq<Value>, blue: Seq<Value>)
    requires
        count_color(colors, Color::Red) == red.len(),
        count_color(colors, Color::Blue) == blue.len(),
    ensures
        interleave(colors, red, blue).len() == colors.len(),
    decreases colors.len(),
{
    if colors.len() > 0 {
        if colors.first() == Color::Red {
            lemma_interleave_len(colors.drop_first(), red.drop_first(), blue);
        } else {
            lemma_interleave_len(colors.drop_first(), red, blue.drop_first());
        }
    }
}

/// Every solution of a product is a merge of one red and one blue solution.
pub proof fn lemma_product_sols_contains(colors: Seq<Color>, rs: Seq<Seq<Value>>, bs: Seq<Seq<Value>>)
    ensures
        forall|s: Seq<Value>|
            #[trigger] product_sols(colors, rs, bs).contains(s) ==> exists|i: int, j: int|
                0 <= i < rs.len() && 0 <= j < bs.len() && s == interleave(colors, rs[i], bs[j]),
    decreases rs.len(),
{
    if rs.len() > 0 {
        lemma_product_sols_contains(colors, rs.drop_first(), bs);
        assert forall|s: Seq<Value>|
            #[trigger] product_sols(colors, rs, bs).contains(s) implies exists|i: int, j: int|
            0 <= i < rs.len() && 0 <= j < bs.len() && s == interleave(colors, rs[i], bs[j]) by {
            let p = choose|p: int|
                0 <= p < product_sols(colors, rs, bs).len() && product_sols(colors, rs, bs)[p]
                    == s;
            let row = row_sols(colors, rs.first(), bs);
            if p < row.len() {
                assert(row[p] == interleave(colors, rs.first(), bs[p]));
                assert(0 <= 0 < rs.len() && 0 <= p < bs.len() && s == interleave(
                    colors,
                    rs[0],
                    bs[p],
                ));
            } else {
                let rest = product_sols(colors, rs.drop_first(), bs);
                assert(rest[p - row.len()] == s);
                assert(rest.contains(s));
                let (i2, j2): (int, int) = choose|i2: int, j2: int|
                    0 <= i2 < rs.drop_first().len() && 0 <= j2 < bs.len() && s == interleave(
                        colors,
                        rs.drop_first()[i2],
                        bs[j2],
                    );
                assert(rs.drop_first()[i2] == rs[i2 + 1]);
                assert(0 <= i2 + 1 < rs.len() && 0 <= j2 < bs.len() && s == interleave(
                    colors,
                    rs[i2 + 1],
                    bs[j2],
                ));
            }
        }
    }
}


/// The digits of an assignment at the cells of one color, in cell order.
pub open spec fn restrict(colors: Seq<Color>, c: Color, s: Seq<Value>) -> Seq<Value>
    decreases colors.len(),
{
    if colors.len() == 0 || s.len() == 0 {
        Seq::empty()
    } else if colors.first() == c {
        seq![s.first()] + restrict(colors.drop_first(), c, s.drop_first())
    } else {
        restrict(colors.drop_first(), c, s.drop_first())
    }
}

/// A half holds one digit per cell of its color.
pub proof fn lemma_restrict_len(colors: Seq<Color>, c: Color, s: Seq<Value>)
    requires
        s.len() == colors.len(),
    ensures
        restrict(colors, c, s).len() == count_color(colors, c),
    decreases colors.len(),
{
    if colors.len() > 0 {
        lemma_restrict_len(colors.drop_first(), c, s.drop_first());
    }
}

/// Splitting an assignment by color and merging the halves back yields the
/// assignment again: the color tags carry exactly the information needed to
/// rebuild a merged board in original cell order.
pub proof fn lemma_interleave_restrict(colors: Seq<Color>, s: Seq<Value>)
    requires
        s.len() == colors.len(),
    ensures
        interleave(colors, restrict(colors, Color::Red, s), restrict(colors, Color::Blue, s))
            == s,
    decreases colors.len(),
{
    if colors.len() == 0 {
        assert(interleave(
            colors,
            restrict(colors, Color::Red, s),
            restrict(colors, Color::Blue, s),
        ) =~= s);
    } else {
        lemma_interleave_restrict(colors.drop_first(), s.drop_first());
        let red = restrict(colors, Color::Red, s);
        let blue = restrict(colors, Color::Blue, s);
        if colors.first() == Color::Red {
            assert(red == seq![s.first()] + restrict(colors.drop_first(), Color::Red, s.drop_first()));
            assert(red.first() == s.first());
            assert(red.drop_first() =~= restrict(colors.drop_first(), Color::Red, s.drop_first()));
            assert(blue == restrict(colors.drop_first(), Color::Blue, s.drop_first()));
            assert(interleave(colors, red, blue) =~= s);
        } else {
            assert(blue == seq![s.first()] + restrict(
                colors.drop_first(),
                Color::Blue,
                s.drop_first(),
            ));
            assert(blue.first() == s.first());
            assert(blue.drop_first() =~= restrict(colors.drop_first(), Color::Blue, s.drop_first()));
            assert(red == restrict(colors.drop_first(), Color::Red, s.drop_first()));
            assert(interleave(colors, red, blue) =~= s);
        }
    }
}

/// Merging two halves and then restricting to one color gives that half back:
/// a merged solution determines the two half-solutions it was built from.
pub proof fn lemma_restrict_interleave(colors: Seq<Color>, red: Seq<Value>, blue: Seq<Value>)
    requires
        count_color(colors, Color::Red) == red.len(),
        count_color(colors, Color::Blue) == blue.len(),
    ensures
        restrict(colors, Color::Red, interleave(colors, red, blue)) == red,
        restrict(colors, Color::Blue, interleave(colors, red, blue)) == blue,
    decreases colors.len(),
{
    lemma_interleave_len(colors, red, blue);
    let s = interleave(colors, red, blue);
    if colors.len() == 0 {
        assert(restrict(colors, Color::Red, s) =~= red);
        assert(restrict(colors, Color::Blue, s) =~= blue);
    } else if colors.first() == Color::Red {
        lemma_restrict_interleave(colors.drop_first(), red.drop_first(), blue);
        assert(s == seq![red.first()] + interleave(colors.drop_first(), red.drop_first(), blue));
        assert(s.first() == red.first());
        assert(s.drop_first() =~= interleave(colors.drop_first(), red.drop_first(), blue));
        assert(restrict(colors, Color::Red, s) =~= red);
        assert(restrict(colors, Color::Blue, s) == blue);
    } else {
        lemma_restrict_interleave(colors.drop_first(), red, blue.drop_first());
        assert(s == seq![blue.first()] + interleave(colors.drop_first(), red, blue.drop_first()));
        assert(s.first() == blue.first());
        assert(s.drop_first() =~= interleave(colors.drop_first(), red, blue.drop_first()));
        assert(restrict(colors, Color::Blue, s) =~= blue);
        assert(restrict(colors, Color::Red, s) == red);
    }
}


/// Every merge of one red and one blue solution is among a product's
/// solutions.
pub proof fn lemma_product_sols_has(
    colors: Seq<Color>,
    rs: Seq<Seq<Value>>,
    bs: Seq<Seq<Value>>,
    i: int,
    j: int,
)
    requires
        0 <= i < rs.len(),
        0 <= j < bs.len(),
    ensures
        product_sols(colors, rs, bs).contains(interleave(colors, rs[i], bs[j])),
    decreases i,
{
    let row = row_sols(colors, rs.first(), bs);
    let rest = product_sols(colors, rs.drop_first(), bs);
    if i == 0 {
        assert(row[j] == interleave(colors, rs[0], bs[j]));
        assert(product_sols(colors, rs, bs)[j] == interleave(colors, rs[0], bs[j]));
    } else {
        lemma_product_sols_has(colors, rs.drop_first(), bs, i - 1, j);
        assert(rs.drop_first()[i - 1] == rs[i]);
        let p = choose|p: int|
            0 <= p < rest.len() && rest[p] == interleave(colors, rs[i], bs[j]);
        assert(product_sols(colors, rs, bs)[row.len() + p] == interleave(colors, rs[i], bs[j]));
    }
}

/// A half of an assignment with digits 1 through 9 again has digits 1
/// through 9.
pub proof fn lemma_restrict_range(colors: Seq<Color>, c: Color, s: Seq<Value>)
    requires
        forall|i: int| 0 <= i < s.len() ==> 1 <= #[trigger] s[i] <= 9,
    ensures
        forall|i: int|
            0 <= i < restrict(colors, c, s).len() ==> 1 <= #[trigger] restrict(colors, c, s)[i]
                <= 9,
    decreases colors.len(),
{
    if colors.len() > 0 && s.len() > 0 {
        lemma_restrict_range(colors.drop_first(), c, s.drop_first());
        assert forall|i: int|
            0 <= i < restrict(colors, c, s).len() implies 1 <= #[trigger] restrict(colors, c, s)[i]
            <= 9 by {
            if colors.first() == c {
                if i == 0 {
                    assert(restrict(colors, c, s)[0] == s.first());
                } else {
                    assert(restrict(colors, c, s)[i] == restrict(
                        colors.drop_first(),
                        c,
                        s.drop_first(),
                    )[i - 1]);
                }
            } else {
                assert(restrict(colors, c, s)[i] == restrict(
                    colors.drop_first(),
                    c,
                    s.drop_first(),
                )[i]);
            }
        }
    }
}


/// A merge of two assignments with digits 1 through 9 again has digits 1
/// through 9.
pub proof fn lemma_interleave_range(colors: Seq<Color>, red: Seq<Value>, blue: Seq<Value>)
    requires
        forall|i: int| 0 <= i < red.len() ==> 1 <= #[trigger] red[i] <= 9,
        forall|i: int| 0 <= i < blue.len() ==> 1 <= #[trigger] blue[i] <= 9,
    ensures
        forall|i: int|
            0 <= i < interleave(colors, red, blue).len() ==> 1 <= #[trigger] interleave(
                colors,
                red,
                blue,
            )[i] <= 9,
    decreases colors.len(),
{
    if colors.len() > 0 {
        let s = interleave(colors, red, blue);
        if colors.first() == Color::Red {
            if red.len() > 0 {
                lemma_interleave_range(colors.drop_first(), red.drop_first(), blue);
                assert forall|i: int| 0 <= i < s.len() implies 1 <= #[trigger] s[i] <= 9 by {
                    if i == 0 {
                        assert(s[0] == red.first());
                    } else {
                        assert(s[i] == interleave(
                            colors.drop_first(),
                            red.drop_first(),
                            blue,
                        )[i - 1]);
                    }
                }
            }
        } else {
            if blue.len() > 0 {
                lemma_interleave_range(colors.drop_first(), red, blue.drop_first());
                assert forall|i: int| 0 <= i < s.len() implies 1 <= #[trigger] s[i] <= 9 by {
                    if i == 0 {
                        assert(s[0] == blue.first());
                    } else {
                        assert(s[i] == interleave(
                            colors.drop_first(),
                            red,
                            blue.drop_first(),
                        )[i - 1]);
                    }
                }
            }
        }
    }
}

} // verus!
