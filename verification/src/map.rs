use vstd::prelude::*;

use crate::rule::{RuleTable, lemma_apply_n_add, lemma_eventually_periodic};
use crate::ternary::Ternary;

verus! {

/// The last `2 * p` states of `t` repeat with period `p`: each of the last
/// `p` states equals the state `p` places before it.
pub open spec fn tail_periodic(t: Seq<Ternary>, p: int) -> bool {
    &&& 1 <= p
    &&& 2 * p <= t.len()
    &&& forall|j: int| t.len() - p <= j < t.len() ==> #[trigger] t[j] == t[j - p]
}

/// Some period shows at the tail of `t`.
pub open spec fn has_tail_period(t: Seq<Ternary>) -> bool {
    exists|p: int| tail_periodic(t, p)
}

/// `p` is the smallest period that shows at the tail of `t`.
pub open spec fn is_least_tail_period(t: Seq<Ternary>, p: int) -> bool {
    &&& tail_periodic(t, p)
    &&& forall|q: int| 1 <= q < p ==> !tail_periodic(t, q)
}

impl RuleTable {
    /// The trajectory of `s` after `k` steps: `s` and its first `k` images.
    pub open spec fn trajectory(&self, s: Ternary, k: int) -> Seq<Ternary> {
        self.orbit(s, (k + 1) as nat)
    }

    /// After `k` steps from `s`, a period shows at the tail of the trajectory.
    pub open spec fn shows_period(&self, s: Ternary, k: int) -> bool {
        has_tail_period(self.trajectory(s, k))
    }

    /// Step `j` is the first of the steps `1..=max` from `s` at which a period shows.
    pub open spec fn first_period_step(&self, s: Ternary, j: int, max: int) -> bool {
        &&& 1 <= j <= max
        &&& self.shows_period(s, j)
        &&& forall|k: int| 1 <= k < j ==> !#[trigger] self.shows_period(s, k)
    }

    /// `result` is what period detection from `s` within `max` steps
    /// reports: the least tail period at the first step where a period
    /// shows, or nothing when none shows.
    pub open spec fn period_outcome(&self, s: Ternary, max: int, result: Option<usize>) -> bool {
        match result {
            Some(p) => exists|j: int|
                #[trigger] self.first_period_step(s, j, max) && is_least_tail_period(self.trajectory(s, j), p as int),
            None => forall|j: int| 1 <= j <= max ==> !#[trigger] self.shows_period(s, j),
        }
    }
}

/// On three states every orbit settles into a cycle quickly: within five
/// steps a period shows at the tail of the trajectory, whatever the rule and
/// the start.
pub proof fn lemma_period_shows_within_five_steps(r: RuleTable, s: Ternary)
    ensures
        exists|j: int| 1 <= j <= 5 && #[trigger] r.shows_period(s, j),
{
    let a0 = r.apply_n(s, 0);
    let a1 = r.apply_n(s, 1);
    let a2 = r.apply_n(s, 2);
    let a3 = r.apply_n(s, 3);
    // Four states out of three: two of them coincide.
    let (i, j): (nat, nat) = if a0 == a1 {
        (0, 1)
    } else if a0 == a2 {
        (0, 2)
    } else if a0 == a3 {
        (0, 3)
    } else if a1 == a2 {
        (1, 2)
    } else if a1 == a3 {
        (1, 3)
    } else {
        assert(a2 == a3);
        (2, 3)
    };
    let q: nat = (j - i) as nat;
    let big_j: int = i + 2 * q - 1;
    let t = r.trajectory(s, big_j);
    assert forall|m: int| t.len() - q <= m < t.len() implies #[trigger] t[m] == t[m - q] by {
        lemma_eventually_periodic(r, s, i, q, (m - q) as nat);
    }
    assert(tail_periodic(t, q as int));
    assert(r.shows_period(s, big_j));
}

/// A detected period `p` brings the state reached at that step back to
/// itself after `p` more steps.
proof fn lemma_tail_period_closes(r: RuleTable, s: Ternary, j: int, p: int)
    requires
        j >= 1,
        tail_periodic(r.trajectory(s, j), p),
    ensures
        r.apply_n(r.apply_n(s, j as nat), p as nat) == r.apply_n(s, j as nat),
{
    let t = r.trajectory(s, j);
    assert(t[j] == t[j - p]);
    lemma_apply_n_add(r, s, j as nat, p as nat);
    lemma_eventually_periodic(r, s, (j - p) as nat, p as nat, j as nat);
}

/// An iterated map on ternary states: a rule, the current state, and the
/// history of the states that `iterate` has visited.
#[derive(Clone, Debug)]
pub struct TernaryMap {
    pub rule: RuleTable,
    pub state: Ternary,
    history: Vec<Ternary>,
}

impl TernaryMap {
    /// The states recorded so far, oldest first.
    pub closed spec fn history_seq(&self) -> Seq<Ternary> {
        self.history@
    }

    /// The rule that the map applies.
    pub closed spec fn spec_rule(&self) -> RuleTable {
        self.rule
    }

    /// The current state.
    pub closed spec fn spec_state(&self) -> Ternary {
        self.state
    }

    pub fn new(initial: Ternary, rule: RuleTable) -> (m: Self)
        ensures
            m.spec_rule() == rule,
            m.spec_state() == initial,
            m.history_seq() == seq![initial],
    {
        let mut history: Vec<Ternary> = Vec::new();
        history.push(initial);
        TernaryMap { rule, state: initial, history }
    }

    /// XOR-like map: flips the sign of `x` when `flip` holds (the parameter
    /// exceeds one half), else leaves it.
    pub fn xor_rule(x: Ternary, flip: bool) -> (y: Ternary)
        ensures
            y == (if flip { x.spec_negate() } else { x }),
            y.spec_value() == (if flip { -x.spec_value() } else { x.spec_value() as int }),
    {
        if flip {
            match x {
                Ternary::Neg => Ternary::Pos,
                Ternary::Pos => Ternary::Neg,
                Ternary::Zero => Ternary::Zero,
            }
        } else {
            x
        }
    }

    /// Applies the rule once, records the new state and returns it.
    pub fn iterate(&mut self) -> (s: Ternary)
        ensures
            s == old(self).spec_rule().spec_apply(old(self).spec_state()),
            final(self).spec_state() == s,
            final(self).spec_rule() == old(self).spec_rule(),
            final(self).history_seq() == old(self).history_seq().push(s),
    {
        self.state = self.rule.apply(self.state);
        self.history.push(self.state);
        self.state
    }

    /// Applies the rule `n` times, recording each new state, and returns the
    /// `n` new states in order.
    pub fn iterate_n(&mut self, n: usize) -> (v: Vec<Ternary>)
        ensures
            v@ == Seq::new(n as nat, |i: int| old(self).spec_rule().apply_n(old(self).spec_state(), (i + 1) as nat)),
            final(self).spec_state() == old(self).spec_rule().apply_n(old(self).spec_state(), n as nat),
            final(self).spec_rule() == old(self).spec_rule(),
            final(self).history_seq() == old(self).history_seq() + v@,
    {
        let ghost s0 = self.state;
        let ghost h0 = self.history@;
        let mut v: Vec<Ternary> = Vec::new();
        let mut i: usize = 0;
        while i < n
            invariant
                i <= n,
                self.rule == old(self).spec_rule(),
                s0 == old(self).spec_state(),
                h0 == old(self).history@,
                self.state == self.rule.apply_n(s0, i as nat),
                v@ == Seq::new(i as nat, |k: int| self.rule.apply_n(s0, (k + 1) as nat)),
                self.history@ == h0 + v@,
            decreases n - i,
        {
            let s = self.iterate();
            v.push(s);
            i += 1;
            assert(v@ =~= Seq::new(i as nat, |k: int| self.rule.apply_n(s0, (k + 1) as nat)));
            assert(self.history@ =~= h0 + v@);
        }
        v
    }

    /// Runs the rule from the current state for at most `max_iterations`
    /// steps, keeping the trajectory. After each step it looks for the
    /// smallest `p` such that the last `2 * p` states of the trajectory
    /// repeat with period `p`, and returns the first one found. The state
    /// is left at the step reached; the history is not touched.
    pub fn detect_period(&mut self, max_iterations: usize) -> (r: Option<usize>)
        ensures
            final(self).spec_rule() == old(self).spec_rule(),
            final(self).history_seq() == old(self).history_seq(),
            old(self).spec_rule().period_outcome(old(self).spec_state(), max_iterations as int, r),
            match r {
                Some(p) => exists|j: int|
                    #[trigger] old(self).spec_rule().first_period_step(old(self).spec_state(), j, max_iterations as int)
                    && is_least_tail_period(old(self).spec_rule().trajectory(old(self).spec_state(), j), p as int)
                    && final(self).spec_state() == old(self).spec_rule().apply_n(old(self).spec_state(), j as nat),
                None => {
                    &&& forall|j: int| 1 <= j <= max_iterations ==> !#[trigger] old(self).spec_rule().shows_period(old(self).spec_state(), j)
                    &&& final(self).spec_state() == old(self).spec_rule().apply_n(old(self).spec_state(), max_iterations as nat)
                },
            },
            r matches Some(p) ==> final(self).spec_rule().apply_n(final(self).spec_state(), p as nat) == final(self).spec_state(),
            max_iterations >= 5 ==> r is Some,
    {
        let ghost s0 = self.state;
        let ghost rule = self.rule;
        let initial = self.state;
        let mut trajectory: Vec<Ternary> = Vec::new();
        trajectory.push(initial);
        assert(trajectory@ =~= rule.trajectory(s0, 0));
        let mut step: usize = 0;
        while step < max_iterations
            invariant
                step <= max_iterations,
                self.rule == rule,
                rule == old(self).rule,
                s0 == old(self).state,
                self.history == old(self).history,
                self.state == rule.apply_n(s0, step as nat),
                trajectory@ == rule.trajectory(s0, step as int),
                forall|k: int| 1 <= k <= step ==> !#[trigger] rule.shows_period(s0, k),
            decreases max_iterations - step,
        {
            self.state = self.rule.apply(self.state);
            trajectory.push(self.state);
            step += 1;
            assert(trajectory@ =~= rule.trajectory(s0, step as int));
            let ghost t = trajectory@;
            let len = trajectory.len();
            let mut period: usize = 0;
            while period < len / 2
                invariant
                    step <= max_iterations,
                    self.rule == rule,
                    rule == old(self).rule,
                    s0 == old(self).state,
                    self.history == old(self).history,
                    self.state == rule.apply_n(s0, step as nat),
                    trajectory@ == t,
                    t == rule.trajectory(s0, step as int),
                    len == t.len(),
                    len == step + 1,
                    period <= len / 2,
                    forall|k: int| 1 <= k < step ==> !#[trigger] rule.shows_period(s0, k),
                    forall|q: int| 1 <= q <= period ==> !tail_periodic(t, q),
                decreases len / 2 - period,
            {
                period += 1;
                let mut is_periodic = true;
                let mut i: usize = 0;
                while i < period && is_periodic
                    invariant
                        1 <= period <= len / 2,
                        i <= period,
                        trajectory@ == t,
                        len == t.len(),
                        is_periodic == (forall|j: int| len - i <= j < len ==> #[trigger] t[j] == t[j - period]),
                    decreases period - i,
                {
                    if trajectory[len - 1 - i] != trajectory[len - 1 - i - period] {
                        is_periodic = false;
                    }
                    i += 1;
                }
                assert(is_periodic == tail_periodic(t, period as int));
                if is_periodic && len >= 2 * period {
                    proof {
                        assert(rule.shows_period(s0, step as int));
                        assert(rule.first_period_step(s0, step as int, max_iterations as int));
                        lemma_tail_period_closes(rule, s0, step as int, period as int);
                    }
                    return Some(period);
                }
            }
            assert forall|q: int| tail_periodic(t, q) implies false by {
                assert(1 <= q <= len / 2);
            }
            assert(!rule.shows_period(s0, step as int));
        }
        proof {
            if max_iterations >= 5 {
                lemma_period_shows_within_five_steps(rule, s0);
            }
        }
        None
    }

    /// The states recorded so far, oldest first.
    pub fn history(&self) -> (h: &[Ternary])
        ensures
            h@ == self.history_seq(),
    {
        self.history.as_slice()
    }
}

} // verus!
