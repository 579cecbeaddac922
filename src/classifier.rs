//! The online classifier: one small automaton per direction, fed one value
//! at a time, deciding in constant space whether the report seen so far is
//! safe with at most one value discarded.
use vstd::prelude::*;
use crate::report::{fits, monotone_within, repairable, report_safe};
use crate::step::{permits, canonical_policy, StepPolicy, StepRange};

verus! {

/// Where one direction's automaton stands.
#[derive(Clone, Copy, Debug, PartialEq, Eq, Structural)]
pub enum State {
    /// Everything seen so far is valid. Of `(before, last)` a future value can
    /// follow either, but following `before` means dropping `last`.
    TwoGood(isize, isize),
    /// A value has had to be dropped, but which of the two candidate tails
    /// survives is still open; equal slots mean the choice has been made.
    TwoBad(isize, isize),
    /// Even with a value dropped, the values seen so far are not valid.
    Unsafe,
}

/// The state after the first two values `a`, `b`.
pub open spec fn start_state(lo: int, hi: int, damped: bool, a: isize, b: isize) -> State {
    if permits(lo, hi, a as int, b as int) {
        State::TwoGood(a, b)
    } else if damped {
        State::TwoBad(a, b)
    } else {
        State::Unsafe
    }
}

/// The state after one more value `x`.
pub open spec fn next_state(lo: int, hi: int, damped: bool, st: State, x: isize) -> State {
    match st {
        State::TwoGood(before, last) => {
            if permits(lo, hi, last as int, x as int) {
                State::TwoGood(last, x)
            } else if !damped {
                State::Unsafe
            } else if permits(lo, hi, before as int, x as int) {
                State::TwoBad(last, x)
            } else {
                State::TwoBad(last, last)
            }
        },
        State::TwoBad(a, b) => {
            if permits(lo, hi, a as int, x as int) || permits(lo, hi, b as int, x as int) {
                State::TwoBad(x, x)
            } else {
                State::Unsafe
            }
        },
        State::Unsafe => State::Unsafe,
    }
}

/// The state after feeding all of `s` (at least two values) in order.
pub open spec fn state_after(lo: int, hi: int, damped: bool, s: Seq<isize>) -> State
    decreases s.len(),
{
    if s.len() <= 2 {
        start_state(lo, hi, damped, s[0], s[1])
    } else {
        next_state(lo, hi, damped, state_after(lo, hi, damped, s.drop_last()), s.last())
    }
}

/// The automata's verdict on `s`: at least one direction has not reached
/// `Unsafe`.
pub open spec fn automaton_verdict(p: StepPolicy, s: Seq<isize>, damped: bool) -> bool {
    !(state_after(p.increasing.lo as int, p.increasing.hi as int, damped, s) is Unsafe)
        || !(state_after(p.decreasing.lo as int, p.decreasing.hi as int, damped, s) is Unsafe)
}

/// Some value before the last can be dropped to leave `s` valid.
spec fn early_drop_fixes(lo: int, hi: int, s: Seq<isize>) -> bool {
    exists|i: int| 0 <= i < s.len() - 1 && #[trigger] monotone_within(lo, hi, s.remove(i))
}

/// Dropping the last value leaves `s` valid.
spec fn last_drop_fixes(lo: int, hi: int, s: Seq<isize>) -> bool {
    monotone_within(lo, hi, s.remove(s.len() - 1))
}

/// What each state says of the values `s` seen so far. In `TwoBad(a, b)` the
/// slots hold exactly the tails that a single drop can leave: `s`'s last
/// value when an earlier drop works, its last but one when dropping the last
/// value works.
spec fn describes(lo: int, hi: int, damped: bool, st: State, s: Seq<isize>) -> bool {
    let n = s.len();
    let valid = monotone_within(lo, hi, s);
    let early = early_drop_fixes(lo, hi, s);
    let late = last_drop_fixes(lo, hi, s);
    match st {
        State::TwoGood(before, last) => valid && before == s[n - 2] && last == s[n - 1],
        State::TwoBad(a, b) => {
            &&& damped
            &&& !valid
            &&& (a == s[n - 1] && early) || (a == s[n - 2] && late)
            &&& (b == s[n - 1] && early) || (b == s[n - 2] && late)
            &&& early ==> (a == s[n - 1] || b == s[n - 1])
            &&& late ==> (a == s[n - 2] || b == s[n - 2])
        },
        State::Unsafe => !valid && (!damped || (!early && !late)),
    }
}

proof fn lemma_push_monotone(lo: int, hi: int, s: Seq<isize>, x: isize)
    requires
        s.len() >= 1,
    ensures
        monotone_within(lo, hi, s.push(x)) == (monotone_within(lo, hi, s) && permits(
            lo,
            hi,
            s.last() as int,
            x as int,
        )),
{
    let t = s.push(x);
    let n = s.len() as int;
    if monotone_within(lo, hi, t) {
        assert forall|i: int| #![trigger s[i]] 0 <= i < n - 1 implies permits(lo, hi, s[i] as int, s[i + 1] as int) by {
            assert(t[i] == s[i]);
            assert(t[i + 1] == s[i + 1]);
        }
        assert(t[n - 1] == s.last());
        assert(t[n] == x);
    }
    if monotone_within(lo, hi, s) && permits(lo, hi, s.last() as int, x as int) {
        assert forall|i: int| #![trigger t[i]] 0 <= i < t.len() - 1 implies permits(lo, hi, t[i] as int, t[i + 1] as int) by {
            if i < n - 1 {
                assert(s[i] == t[i]);
            }
        }
    }
}

proof fn lemma_push_remove(s: Seq<isize>, x: isize, i: int)
    requires
        0 <= i <= s.len(),
    ensures
        i < s.len() ==> s.push(x).remove(i) =~= s.remove(i).push(x),
        i == s.len() ==> s.push(x).remove(i) =~= s,
{
}

proof fn lemma_remove_tail(s: Seq<isize>, i: int)
    requires
        s.len() >= 2,
        0 <= i < s.len(),
    ensures
        s.remove(i).len() == s.len() - 1,
        s.remove(i).last() == if i == s.len() - 1 {
            s[s.len() - 2]
        } else {
            s[s.len() - 1]
        },
{
}

proof fn lemma_valid_drop_last(lo: int, hi: int, s: Seq<isize>)
    requires
        s.len() >= 1,
        monotone_within(lo, hi, s),
    ensures
        last_drop_fixes(lo, hi, s),
{
    let t = s.remove(s.len() - 1);
    assert forall|i: int| #![trigger t[i]] 0 <= i < t.len() - 1 implies permits(lo, hi, t[i] as int, t[i + 1] as int) by {
        assert(t[i] == s[i]);
        assert(t[i + 1] == s[i + 1]);
    }
}

proof fn lemma_repairable_split(lo: int, hi: int, s: Seq<isize>)
    requires
        s.len() >= 1,
    ensures
        repairable(lo, hi, s) == (early_drop_fixes(lo, hi, s) || last_drop_fixes(lo, hi, s)),
{
    if repairable(lo, hi, s) {
        let i = choose|i: int| 0 <= i < s.len() && #[trigger] monotone_within(lo, hi, s.remove(i));
        if i < s.len() - 1 {
            assert(early_drop_fixes(lo, hi, s));
        }
    }
    if last_drop_fixes(lo, hi, s) {
        assert(monotone_within(lo, hi, s.remove(s.len() - 1)));
    }
}

/// How the three facts about `s` change when `x` is appended.
proof fn lemma_push_facts(lo: int, hi: int, s: Seq<isize>, x: isize)
    requires
        s.len() >= 2,
    ensures
        monotone_within(lo, hi, s.push(x)) == (monotone_within(lo, hi, s) && permits(
            lo,
            hi,
            s[s.len() - 1] as int,
            x as int,
        )),
        last_drop_fixes(lo, hi, s.push(x)) == monotone_within(lo, hi, s),
        early_drop_fixes(lo, hi, s.push(x)) == ((early_drop_fixes(lo, hi, s) && permits(
            lo,
            hi,
            s[s.len() - 1] as int,
            x as int,
        )) || (last_drop_fixes(lo, hi, s) && permits(lo, hi, s[s.len() - 2] as int, x as int))),
{
    let n = s.len() as int;
    let t = s.push(x);
    lemma_push_monotone(lo, hi, s, x);
    lemma_push_remove(s, x, n);
    assert(t.len() - 1 == n);
    if early_drop_fixes(lo, hi, t) {
        let i = choose|i: int| 0 <= i < t.len() - 1 && #[trigger] monotone_within(lo, hi, t.remove(i));
        lemma_push_remove(s, x, i);
        lemma_remove_tail(s, i);
        lemma_push_monotone(lo, hi, s.remove(i), x);
        if i < n - 1 {
            assert(monotone_within(lo, hi, s.remove(i)));
        }
    }
    if early_drop_fixes(lo, hi, s) && permits(lo, hi, s[n - 1] as int, x as int) {
        let i = choose|i: int| 0 <= i < s.len() - 1 && #[trigger] monotone_within(lo, hi, s.remove(i));
        lemma_push_remove(s, x, i);
        lemma_remove_tail(s, i);
        lemma_push_monotone(lo, hi, s.remove(i), x);
        assert(monotone_within(lo, hi, t.remove(i)));
    }
    if last_drop_fixes(lo, hi, s) && permits(lo, hi, s[n - 2] as int, x as int) {
        lemma_push_remove(s, x, n - 1);
        lemma_remove_tail(s, n - 1);
        lemma_push_monotone(lo, hi, s.remove(n - 1), x);
        assert(monotone_within(lo, hi, t.remove(n - 1)));
    }
}

proof fn lemma_describes_start(lo: int, hi: int, damped: bool, a: isize, b: isize)
    ensures
        describes(lo, hi, damped, start_state(lo, hi, damped, a, b), seq![a, b]),
{
    let s = seq![a, b];
    assert(s.remove(0) =~= seq![b]);
    assert(s.remove(1) =~= seq![a]);
    assert(monotone_within(lo, hi, s.remove(0)));
    assert(monotone_within(lo, hi, s.remove(1)));
    assert(early_drop_fixes(lo, hi, s));
    if !permits(lo, hi, a as int, b as int) {
        assert(!(permits(lo, hi, s[0] as int, s[1] as int)));
    }
}

proof fn lemma_describes_next(lo: int, hi: int, damped: bool, st: State, s: Seq<isize>, x: isize)
    requires
        s.len() >= 2,
        describes(lo, hi, damped, st, s),
    ensures
        describes(lo, hi, damped, next_state(lo, hi, damped, st, x), s.push(x)),
{
    let n = s.len() as int;
    let t = s.push(x);
    lemma_push_facts(lo, hi, s, x);
    assert(t[n] == x && t[n - 1] == s[n - 1]);
    if monotone_within(lo, hi, s) {
        lemma_valid_drop_last(lo, hi, s);
    }
}

proof fn lemma_describes_run(lo: int, hi: int, damped: bool, s: Seq<isize>)
    requires
        s.len() >= 2,
    ensures
        describes(lo, hi, damped, state_after(lo, hi, damped, s), s),
    decreases s.len(),
{
    if s.len() == 2 {
        assert(s =~= seq![s[0], s[1]]);
        lemma_describes_start(lo, hi, damped, s[0], s[1]);
    } else {
        let p = s.drop_last();
        lemma_describes_run(lo, hi, damped, p);
        lemma_describes_next(lo, hi, damped, state_after(lo, hi, damped, p), p, s.last());
        assert(p.push(s.last()) =~= s);
    }
}

/// One direction's automaton ends outside `Unsafe` exactly when the values
/// fit the range under the budget (1 when damped, else 0): the single pass
/// agrees with trying every removal.
pub proof fn lemma_automaton_matches_search(lo: int, hi: int, damped: bool, s: Seq<isize>)
    requires
        s.len() >= 2,
    ensures
        !(state_after(lo, hi, damped, s) is Unsafe) == fits(lo, hi, s, if damped { 1 } else { 0 }),
{
    lemma_describes_run(lo, hi, damped, s);
    lemma_repairable_split(lo, hi, s);
}

/// For every report of at least two values, the automata's verdict equals
/// the removal search: safe under budget 1 exactly when the report is valid
/// as it stands or after removing one value, and under budget 0 exactly when
/// it is valid as it stands.
pub proof fn lemma_verdict_matches_search(p: StepPolicy, s: Seq<isize>, damped: bool)
    requires
        s.len() >= 2,
    ensures
        automaton_verdict(p, s, damped) == report_safe(p, s, if damped { 1 } else { 0 }),
{
    lemma_automaton_matches_search(p.increasing.lo as int, p.increasing.hi as int, damped, s);
    lemma_automaton_matches_search(p.decreasing.lo as int, p.decreasing.hi as int, damped, s);
}

impl State {
    /// The state after the first two values of a report.
    pub fn start(range: &StepRange, damped: bool, a: isize, b: isize) -> (st: State)
        ensures
            st == start_state(range.lo as int, range.hi as int, damped, a, b),
    {
        if range.contains_step(a, b) {
            State::TwoGood(a, b)
        } else if damped {
            State::TwoBad(a, b)
        } else {
            State::Unsafe
        }
    }

    /// The state after one more value `x`.
    pub fn advance(self, range: &StepRange, damped: bool, x: isize) -> (st: State)
        ensures
            st == next_state(range.lo as int, range.hi as int, damped, self, x),
    {
        match self {
            State::TwoGood(before, last) => {
                if range.contains_step(last, x) {
                    State::TwoGood(last, x)
                } else if !damped {
                    State::Unsafe
                } else if range.contains_step(before, x) {
                    State::TwoBad(last, x)
                } else {
                    State::TwoBad(last, last)
                }
            },
            State::TwoBad(a, b) => {
                if range.contains_step(a, x) || range.contains_step(b, x) {
                    State::TwoBad(x, x)
                } else {
                    State::Unsafe
                }
            },
            State::Unsafe => State::Unsafe,
        }
    }

    /// Whether this is the absorbing `Unsafe` state.
    pub fn is_unsafe(&self) -> (r: bool)
        ensures
            r == (*self is Unsafe),
    {
        match self {
            State::Unsafe => true,
            _ => false,
        }
    }
}

/// The classifier of one report: a policy, a removal budget of 0 or 1, and
/// one automaton per direction. Its view is the values fed so far, which it
/// keeps only as ghost state.
pub struct TestState {
    inc: State,
    dec: State,
    policy: StepPolicy,
    damped: bool,
    seen: Ghost<Seq<isize>>,
}

impl View for TestState {
    type V = Seq<isize>;

    closed spec fn view(&self) -> Seq<isize> {
        self.seen@
    }
}

impl TestState {
    pub closed spec fn policy(&self) -> StepPolicy {
        self.policy
    }

    /// The removal budget, 0 or 1.
    pub closed spec fn budget(&self) -> nat {
        if self.damped {
            1
        } else {
            0
        }
    }

    /// Each automaton stands where feeding the values seen leaves it.
    pub closed spec fn wf(&self) -> bool {
        &&& self@.len() >= 2
        &&& self.inc == state_after(
            self.policy.increasing.lo as int,
            self.policy.increasing.hi as int,
            self.damped,
            self@,
        )
        &&& self.dec == state_after(
            self.policy.decreasing.lo as int,
            self.policy.decreasing.hi as int,
            self.damped,
            self@,
        )
    }

    /// A classifier that starts from a report's first two values, with
    /// removal budget `budget` under `policy`.
    pub fn with_policy(policy: StepPolicy, budget: u8, a: isize, b: isize) -> (r: TestState)
        requires
            budget <= 1,
        ensures
            r.wf(),
            r@ == seq![a, b],
            r.policy() == policy,
            r.budget() == budget as nat,
    {
        let damped = budget == 1;
        let inc = State::start(&policy.increasing, damped, a, b);
        let dec = State::start(&policy.decreasing, damped, a, b);
        let ghost first = seq![a, b];
        let r = TestState { inc, dec, policy, damped, seen: Ghost(first) };
        proof {
            assert(r@.drop_last().len() == 1);
        }
        r
    }

    /// A classifier with the canonical policy and a budget of one removal,
    /// started from a report's first two values.
    pub fn new(a: isize, b: isize) -> (r: TestState)
        ensures
            r.wf(),
            r@ == seq![a, b],
            r.policy() == canonical_policy(),
            r.budget() == 1,
    {
        TestState::with_policy(StepPolicy::canonical(), 1, a, b)
    }

    /// Feeds the next value of the report.
    pub fn push(&mut self, next: isize)
        requires
            old(self).wf(),
        ensures
            final(self).wf(),
            final(self)@ == old(self)@.push(next),
            final(self).policy() == old(self).policy(),
            final(self).budget() == old(self).budget(),
    {
        self.inc = self.inc.advance(&self.policy.increasing, self.damped, next);
        self.dec = self.dec.advance(&self.policy.decreasing, self.damped, next);
        let ghost seen = self.seen@.push(next);
        self.seen = Ghost(seen);
        proof {
            assert(seen.drop_last() =~= old(self)@);
        }
    }

    /// Whether the values fed so far are unsafe: neither direction fits,
    /// even with the budget's removal.
    pub fn is_known_unsafe(&self) -> (r: bool)
        requires
            self.wf(),
        ensures
            r == !report_safe(self.policy(), self@, self.budget()),
    {
        proof {
            lemma_verdict_matches_search(self.policy, self@, self.damped);
        }
        self.inc.is_unsafe() && self.dec.is_unsafe()
    }
}

/// Classifies a whole report, of at least two values, in one forward pass.
pub fn classify(report: &[isize], policy: &StepPolicy, budget: u8) -> (r: bool)
    requires
        report@.len() >= 2,
        budget <= 1,
    ensures
        r == report_safe(*policy, report@, budget as nat),
{
    let mut state = TestState::with_policy(*policy, budget, report[0], report[1]);
    let mut i: usize = 2;
    while i < report.len()
        invariant
            2 <= i <= report@.len(),
            state.wf(),
            state@ == report@.subrange(0, i as int),
            state.policy() == *policy,
            state.budget() == budget as nat,
        decreases report@.len() - i,
    {
        state.push(report[i]);
        proof {
            assert(report@.subrange(0, i as int).push(report@[i as int]) =~= report@.subrange(0, i + 1));
        }
        i = i + 1;
    }
    proof {
        assert(report@.subrange(0, 2) =~= seq![report@[0], report@[1]]);
        assert(report@.subrange(0, report@.len() as int) =~= report@);
    }
    !state.is_known_unsafe()
}

} // verus!
