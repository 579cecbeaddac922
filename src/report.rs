//! What it means for a report to be safe, stated directly: every step lies
//! in a direction's range, or does so once a single value is discarded.
use vstd::prelude::*;
use crate::step::{permits, StepPolicy};

verus! {

/// Every step between neighbouring values of `s` lies in `[lo, hi]`.
pub open spec fn monotone_within(lo: int, hi: int, s: Seq<isize>) -> bool {
    forall|i: int| #![trigger s[i]] 0 <= i < s.len() - 1 ==> permits(lo, hi, s[i] as int, s[i + 1] as int)
}

/// Some single value of `s` can be discarded so that the rest is monotone
/// within `[lo, hi]`.
pub open spec fn repairable(lo: int, hi: int, s: Seq<isize>) -> bool {
    exists|i: int| 0 <= i < s.len() && #[trigger] monotone_within(lo, hi, s.remove(i))
}

/// `s` is monotone within `[lo, hi]` once at most `budget` values (0 or 1)
/// are discarded.
pub open spec fn fits(lo: int, hi: int, s: Seq<isize>, budget: nat) -> bool {
    monotone_within(lo, hi, s) || (budget >= 1 && repairable(lo, hi, s))
}

/// A report is safe under a policy and a removal budget when it fits one of
/// the two directions' ranges.
pub open spec fn report_safe(p: StepPolicy, s: Seq<isize>, budget: nat) -> bool {
    fits(p.increasing.lo as int, p.increasing.hi as int, s, budget)
        || fits(p.decreasing.lo as int, p.decreasing.hi as int, s, budget)
}

/// Loosening the removal budget from 0 to 1 never makes a safe report unsafe.
pub proof fn lemma_budget_monotone(p: StepPolicy, s: Seq<isize>)
    ensures
        report_safe(p, s, 0) ==> report_safe(p, s, 1),
{
}

proof fn lemma_reverse_monotone(lo: int, hi: int, s: Seq<isize>)
    ensures
        monotone_within(lo, hi, s) == monotone_within(-hi, -lo, s.reverse()),
{
    let r = s.reverse();
    let n = s.len() as int;
    assert(r.len() == n);
    if monotone_within(lo, hi, s) {
        assert forall|i: int| #![trigger r[i]] 0 <= i < r.len() - 1 implies permits(-hi, -lo, r[i] as int, r[i + 1] as int) by {
            let j = n - 2 - i;
            assert(r[i] == s[j + 1]);
            assert(r[i + 1] == s[j]);
            assert(permits(lo, hi, s[j] as int, s[j + 1] as int));
        }
    }
    if monotone_within(-hi, -lo, r) {
        assert forall|j: int| #![trigger s[j]] 0 <= j < n - 1 implies permits(lo, hi, s[j] as int, s[j + 1] as int) by {
            let i = n - 2 - j;
            assert(r[i] == s[j + 1]);
            assert(r[i + 1] == s[j]);
            assert(permits(-hi, -lo, r[i] as int, r[i + 1] as int));
        }
    }
}

proof fn lemma_reverse_remove(s: Seq<isize>, i: int)
    requires
        0 <= i < s.len(),
    ensures
        s.reverse().remove(s.len() - 1 - i) =~= s.remove(i).reverse(),
{
}

proof fn lemma_reverse_fits(lo: int, hi: int, s: Seq<isize>, budget: nat)
    ensures
        fits(lo, hi, s, budget) == fits(-hi, -lo, s.reverse(), budget),
{
    let r = s.reverse();
    let n = s.len() as int;
    lemma_reverse_monotone(lo, hi, s);
    if repairable(lo, hi, s) {
        let i = choose|i: int| 0 <= i < n && #[trigger] monotone_within(lo, hi, s.remove(i));
        lemma_reverse_remove(s, i);
        lemma_reverse_monotone(lo, hi, s.remove(i));
        assert(monotone_within(-hi, -lo, r.remove(n - 1 - i)));
    }
    if repairable(-hi, -lo, r) {
        let k = choose|k: int| 0 <= k < n && #[trigger] monotone_within(-hi, -lo, r.remove(k));
        let i = n - 1 - k;
        lemma_reverse_remove(s, i);
        lemma_reverse_monotone(lo, hi, s.remove(i));
        assert(monotone_within(lo, hi, s.remove(i)));
    }
}

/// Under a policy whose two ranges mirror each other, a report and its exact
/// reverse, classified with the directions' ranges swapped, get the same
/// verdict, for either removal budget.
pub proof fn lemma_reversal_symmetry(p: StepPolicy, s: Seq<isize>, budget: nat)
    requires
        p.is_symmetric(),
    ensures
        report_safe(p, s, budget) == report_safe(p.swapped(), s.reverse(), budget),
{
    lemma_reverse_fits(p.increasing.lo as int, p.increasing.hi as int, s, budget);
    lemma_reverse_fits(p.decreasing.lo as int, p.decreasing.hi as int, s, budget);
}

} // verus!
