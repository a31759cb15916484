//! Sum reachability: given the digits already used inside a run and a count
//! of still-unfilled cells, which additional sums can the remaining cells
//! contribute? The answers are precomputed into a lookup table so that the
//! solver can ask in constant time.

use crate::game::{seq_sum, Value};
use vstd::prelude::*;

verus! {

/// Which digits a run has already used: entry `d` says whether digit `d + 1`
/// occurs among `digits`.
pub open spec fn used_of(digits: Seq<Value>) -> Seq<bool> {
    Seq::new(9, |d: int| digits.contains((d + 1) as Value))
}

/// Whether `k` pairwise distinct digits, all at least `d`, at most 9, and not
/// yet used, can add up to exactly `s`. Digits are considered in increasing
/// order, so each one is either taken or skipped.
pub open spec fn spec_reachable(used: Seq<bool>, d: int, k: nat, s: int) -> bool
    decreases 10 - d,
    when d <= 10
{
    if k == 0 {
        s == 0
    } else if d >= 10 {
        false
    } else {
        (!used[d - 1] && spec_reachable(used, d + 1, (k - 1) as nat, s - d)) || spec_reachable(
            used,
            d + 1,
            k,
            s,
        )
    }
}

/// The largest sum the digits `d..=9` can form.
pub open spec fn max_tail(d: int) -> int
    decreases 10 - d,
    when d <= 10
{
    if d >= 10 {
        0
    } else {
        d + max_tail(d + 1)
    }
}

/// A reachable sum lies between 0 and the sum of all digits still available.
pub proof fn lemma_reachable_le_tail(used: Seq<bool>, d: int, k: nat, s: int)
    requires
        1 <= d <= 10,
    ensures
        0 <= max_tail(d),
        spec_reachable(used, d, k, s) ==> 0 <= s <= max_tail(d),
    decreases 10 - d,
{
    if d < 10 {
        lemma_reachable_le_tail(used, d + 1, k, s);
        if k > 0 {
            lemma_reachable_le_tail(used, d + 1, (k - 1) as nat, s - d);
        }
    }
}

/// A reachable sum lies between 0 and 45.
pub proof fn lemma_reachable_bounds(used: Seq<bool>, k: nat, s: int)
    ensures
        spec_reachable(used, 1, k, s) ==> 0 <= s <= 45,
{
    lemma_reachable_le_tail(used, 1, k, s);
    assert(max_tail(1) == 45) by {
        reveal_with_fuel(max_tail, 11);
    }
}

/// Removing one element takes its value out of the sum.
pub proof fn lemma_seq_sum_remove(s: Seq<Value>, j: int)
    requires
        0 <= j < s.len(),
    ensures
        seq_sum(s.remove(j)) == seq_sum(s) - s[j],
    decreases s.len(),
{
    if j == s.len() - 1 {
        assert(s.remove(j) =~= s.drop_last());
    } else {
        assert(s.remove(j).drop_last() =~= s.drop_last().remove(j));
        lemma_seq_sum_remove(s.drop_last(), j);
        assert(s.remove(j).last() == s.last());
    }
}

/// Any collection of distinct unused digits, all in `d..=9`, witnesses that
/// its own sum is reachable. This is the completeness side of pruning by
/// reachability: a branch is only cut when no valid completion exists.
pub proof fn lemma_digits_reachable(used: Seq<bool>, d: int, extra: Seq<Value>)
    requires
        used.len() == 9,
        1 <= d <= 10,
        extra.no_duplicates(),
        forall|i: int| 0 <= i < extra.len() ==> d <= #[trigger] extra[i] <= 9,
        forall|i: int| 0 <= i < extra.len() ==> !used[#[trigger] extra[i] - 1],
    ensures
        spec_reachable(used, d, extra.len() as nat, seq_sum(extra)),
    decreases 10 - d,
{
    if extra.len() == 0 {
        assert(seq_sum(extra) == 0);
    } else {
        assert(d <= extra[0] <= 9);
        if extra.contains(d as Value) {
            let j = choose|j: int| 0 <= j < extra.len() && extra[j] == d;
            let rest = extra.remove(j);
            lemma_seq_sum_remove(extra, j);
            assert(rest.no_duplicates());
            assert forall|i: int| 0 <= i < rest.len() implies d + 1 <= #[trigger] rest[i] <= 9 by {
                if i < j {
                    assert(rest[i] == extra[i]);
                } else {
                    assert(rest[i] == extra[i + 1]);
                }
            }
            assert forall|i: int| 0 <= i < rest.len() implies !used[#[trigger] rest[i] - 1] by {
                if i < j {
                    assert(rest[i] == extra[i]);
                } else {
                    assert(rest[i] == extra[i + 1]);
                }
            }
            lemma_digits_reachable(used, d + 1, rest);
            assert(!used[d - 1]);
        } else {
            assert forall|i: int| 0 <= i < extra.len() implies d + 1 <= #[trigger] extra[i] <= 9 by {
                assert(extra[i] != d);
            }
            lemma_digits_reachable(used, d + 1, extra);
        }
    }
}

/// Whether `k` distinct digits among the unused ones in `d..=9` can add up to
/// `s`, decided by direct search.
pub fn reachable_rec(used: &Vec<bool>, d: usize, k: usize, s: u32) -> (r: bool)
    requires
        used@.len() == 9,
        1 <= d <= 10,
        k <= 9,
        s <= 45,
    ensures
        r == spec_reachable(used@, d as int, k as nat, s as int),
    decreases 10 - d,
{
    if k == 0 {
        s == 0
    } else if d >= 10 {
        false
    } else {
        proof {
            if s < d {
                lemma_reachable_le_tail(used@, d as int + 1, (k - 1) as nat, s as int - d as int);
            }
        }
        let take_d = !used[d - 1] && s >= d as u32 && reachable_rec(used, d + 1, k - 1, s - d as u32);
        if take_d {
            true
        } else {
            reachable_rec(used, d + 1, k, s)
        }
    }
}

/// The power of two with exponent `e`.
pub open spec fn p2(e: int) -> int
    decreases e,
    when e >= 0
{
    if e <= 0 {
        1
    } else {
        2 * p2(e - 1)
    }
}

/// The number encoded by a sequence of bits, least significant first.
pub open spec fn mask_val(u: Seq<bool>) -> int
    decreases u.len(),
{
    if u.len() == 0 {
        0
    } else {
        mask_val(u.drop_last()) + if u.last() {
            p2(u.len() - 1)
        } else {
            0
        }
    }
}

/// Powers of two are at least one.
pub proof fn lemma_p2_pos(e: int)
    requires
        e >= 0,
    ensures
        p2(e) >= 1,
    decreases e,
{
    if e > 0 {
        lemma_p2_pos(e - 1);
    }
}

/// Powers of two grow with the exponent.
pub proof fn lemma_p2_mono(a: int, b: int)
    requires
        0 <= a <= b,
    ensures
        p2(a) <= p2(b),
    decreases b,
{
    if a < b {
        lemma_p2_mono(a, b - 1);
        lemma_p2_pos(b - 1);
    }
}

/// A bit sequence encodes a number below two to its length.
pub proof fn lemma_mask_val_bound(u: Seq<bool>)
    ensures
        0 <= mask_val(u) < p2(u.len() as int),
    decreases u.len(),
{
    if u.len() > 0 {
        lemma_mask_val_bound(u.drop_last());
    }
}

/// Two equally long bit sequences that encode the same number are equal.
pub proof fn lemma_mask_val_injective(u: Seq<bool>, v: Seq<bool>)
    requires
        u.len() == v.len(),
        mask_val(u) == mask_val(v),
    ensures
        u == v,
    decreases u.len(),
{
    if u.len() == 0 {
        assert(u =~= v);
    } else {
        lemma_mask_val_bound(u.drop_last());
        lemma_mask_val_bound(v.drop_last());
        assert(u.last() == v.last());
        lemma_mask_val_injective(u.drop_last(), v.drop_last());
        assert(u =~= u.drop_last().push(u.last()));
        assert(v =~= v.drop_last().push(v.last()));
        assert(u =~= v);
    }
}

/// The nine bits encoded by a number below 512, least significant first.
fn used_of_mask(mask: usize) -> (r: Vec<bool>)
    requires
        mask < 512,
    ensures
        r@.len() == 9,
        mask_val(r@) == mask,
{
    let mut r: Vec<bool> = Vec::new();
    let mut rem: usize = mask;
    let mut d: usize = 0;
    while d < 9
        invariant
            d <= 9,
            r@.len() == d,
            mask == mask_val(r@) + rem * p2(d as int),
            rem <= mask < 512,
        decreases 9 - d,
    {
        let bit = rem % 2 == 1;
        let ghost r0 = r@;
        let ghost rem0 = rem as int;
        let ghost dd = d as int;
        r.push(bit);
        rem = rem / 2;
        proof {
            let q = rem as int;
            let b: int = rem0 % 2;
            assert(rem0 == 2 * q + b);
            assert(p2(dd + 1) == 2 * p2(dd));
            assert(rem0 * p2(dd) == b * p2(dd) + q * p2(dd + 1)) by (nonlinear_arith)
                requires
                    rem0 == 2 * q + b,
                    p2(dd + 1) == 2 * p2(dd),
            ;
            assert(r@.drop_last() =~= r0);
            assert(r@.last() == bit);
            assert(mask_val(r@) == mask_val(r0) + if bit {
                p2(dd)
            } else {
                0
            });
            if bit {
                assert(b * p2(dd) == p2(dd)) by (nonlinear_arith)
                    requires
                        b == 1,
                ;
            } else {
                assert(b * p2(dd) == 0) by (nonlinear_arith)
                    requires
                        b == 0,
                ;
            }
            assert(mask == mask_val(r@) + q * p2(dd + 1));
        }
        d += 1;
    }
    proof {
        lemma_mask_val_bound(r@);
        assert(p2(9) == 512) by {
            reveal_with_fuel(p2, 10);
        }
        assert(rem * p2(9) >= 0) by (nonlinear_arith)
            requires
                rem >= 0,
                p2(9) == 512,
        ;
        if rem > 0 {
            assert(rem * p2(9) >= 512) by (nonlinear_arith)
                requires
                    rem >= 1,
                    p2(9) == 512,
            ;
        }
    }
    r
}

/// The number encoded by nine bits, least significant first.
pub fn mask_of(used: &Vec<bool>) -> (m: usize)
    requires
        used@.len() == 9,
    ensures
        m == mask_val(used@),
        m < 512,
{
    let mut m: usize = 0;
    let mut p: usize = 1;
    let mut d: usize = 0;
    while d < 9
        invariant
            d <= 9,
            used@.len() == 9,
            p == p2(d as int),
            p <= 512,
            m == mask_val(used@.take(d as int)),
            m < p,
        decreases 9 - d,
    {
        proof {
            assert(used@.take(d as int + 1).drop_last() =~= used@.take(d as int));
            assert(used@.take(d as int + 1).last() == used@[d as int]);
            lemma_p2_mono(d as int, 8);
            assert(p2(8) == 256) by {
                reveal_with_fuel(p2, 9);
            }
        }
        if used[d] {
            m += p;
        }
        p *= 2;
        d += 1;
    }
    proof {
        assert(used@.take(9) =~= used@);
    }
    m
}

/// The precomputed table: for every set of used digits, every count of
/// still-unfilled cells, and every candidate additional sum, whether that sum
/// is reachable.
pub struct SumTable {
    pub rows: Vec<Vec<Vec<bool>>>,
}

impl SumTable {
    /// The table answers exactly `spec_reachable` for every used-digit set,
    /// every remaining count below 10, and every sum below 46.
    pub open spec fn wf(self) -> bool {
        &&& self.rows@.len() == 512
        &&& forall|m: int| 0 <= m < 512 ==> #[trigger] self.rows@[m]@.len() == 10
        &&& forall|m: int, k: int|
            0 <= m < 512 && 0 <= k < 10 ==> #[trigger] self.rows@[m]@[k]@.len() == 46
        &&& forall|u: Seq<bool>, k: int, s: int|
            u.len() == 9 && 0 <= k < 10 && 0 <= s < 46 ==> #[trigger] self.rows@[mask_val(
                u,
            )]@[k]@[s] == spec_reachable(u, 1, k as nat, s)
    }

    /// Whether some choice of `num_additional_digits` distinct digits among
    /// those not yet used can contribute exactly `target` more to a run's sum.
    pub fn is_sum_reachable(&self, used: &Vec<bool>, num_additional_digits: usize, target: i32) -> (r:
        bool)
        requires
            self.wf(),
            used@.len() == 9,
            num_additional_digits <= 9,
        ensures
            r == spec_reachable(used@, 1, num_additional_digits as nat, target as int),
    {
        if target < 0 || target > 45 {
            proof {
                lemma_reachable_bounds(used@, num_additional_digits as nat, target as int);
            }
            return false;
        }
        let m = mask_of(used);
        let r = self.rows[m][num_additional_digits][target as usize];
        proof {
            assert(self.rows@[mask_val(used@)]@[num_additional_digits as int]@[target as int]
                == spec_reachable(used@, 1, num_additional_digits as nat, target as int));
        }
        r
    }
}

/// Builds the whole table by running the direct search once for every entry.
pub fn calculate_sum_table() -> (t: SumTable)
    ensures
        t.wf(),
{
    let mut rows: Vec<Vec<Vec<bool>>> = Vec::new();
    let mut m: usize = 0;
    while m < 512
        invariant
            m <= 512,
            rows@.len() == m,
            forall|m2: int| 0 <= m2 < m ==> #[trigger] rows@[m2]@.len() == 10,
            forall|m2: int, k: int|
                0 <= m2 < m && 0 <= k < 10 ==> #[trigger] rows@[m2]@[k]@.len() == 46,
            forall|u: Seq<bool>, k: int, s: int|
                u.len() == 9 && 0 <= mask_val(u) < m && 0 <= k < 10 && 0 <= s < 46
                    ==> #[trigger] rows@[mask_val(u)]@[k]@[s] == spec_reachable(u, 1, k as nat, s),
        decreases 512 - m,
    {
        let used = used_of_mask(m);
        let mut plane: Vec<Vec<bool>> = Vec::new();
        let mut k: usize = 0;
        while k < 10
            invariant
                k <= 10,
                plane@.len() == k,
                used@.len() == 9,
                forall|k2: int| 0 <= k2 < k ==> #[trigger] plane@[k2]@.len() == 46,
                forall|k2: int, s2: int|
                    0 <= k2 < k && 0 <= s2 < 46 ==> #[trigger] plane@[k2]@[s2] == spec_reachable(
                        used@,
                        1,
                        k2 as nat,
                        s2,
                    ),
            decreases 10 - k,
        {
            let mut row: Vec<bool> = Vec::new();
            let mut s: usize = 0;
            while s < 46
                invariant
                    s <= 46,
                    k <= 9,
                    row@.len() == s,
                    used@.len() == 9,
                    forall|s2: int|
                        0 <= s2 < s ==> #[trigger] row@[s2] == spec_reachable(
                            used@,
                            1,
                            k as nat,
                            s2,
                        ),
                decreases 46 - s,
            {
                row.push(reachable_rec(&used, 1, k, s as u32));
                s += 1;
            }
            plane.push(row);
            k += 1;
        }
        rows.push(plane);
        proof {
            assert forall|u: Seq<bool>, k: int, s: int|
                u.len() == 9 && 0 <= mask_val(u) < m + 1 && 0 <= k < 10 && 0 <= s
                    < 46 implies #[trigger] rows@[mask_val(u)]@[k]@[s] == spec_reachable(
                u,
                1,
                k as nat,
                s,
            ) by {
                if mask_val(u) == m {
                    lemma_mask_val_injective(u, used@);
                }
            }
        }
        m += 1;
    }
    proof {
        assert forall|u: Seq<bool>, k: int, s: int|
            u.len() == 9 && 0 <= k < 10 && 0 <= s < 46 implies #[trigger] rows@[mask_val(
            u,
        )]@[k]@[s] == spec_reachable(u, 1, k as nat, s) by {
            lemma_mask_val_bound(u);
            assert(p2(9) == 512) by {
                reveal_with_fuel(p2, 10);
            }
        }
    }
    SumTable { rows }
}

} // verus!
