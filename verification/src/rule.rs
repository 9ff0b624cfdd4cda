use vstd::prelude::*;

use crate::ternary::Ternary;

verus! {

/// A rule of the dynamics for one fixed parameter, held as its transition
/// table: the image of each of the three states.
#[derive(Clone, Copy, Debug, PartialEq, Eq, Structural)]
pub struct RuleTable {
    pub on_neg: Ternary,
    pub on_zero: Ternary,
    pub on_pos: Ternary,
}

impl RuleTable {
    /// The image of `x` under the rule.
    pub open spec fn spec_apply(&self, x: Ternary) -> Ternary {
        match x {
            Ternary::Neg => self.on_neg,
            Ternary::Zero => self.on_zero,
            Ternary::Pos => self.on_pos,
        }
    }

    /// The state reached from `x` after `n` applications of the rule.
    pub open spec fn apply_n(&self, x: Ternary, n: nat) -> Ternary
        decreases n,
    {
        if n == 0 {
            x
        } else {
            self.spec_apply(self.apply_n(x, (n - 1) as nat))
        }
    }

    /// The first `n` states of the orbit of `x`: `x`, its image, and so on.
    pub open spec fn orbit(&self, x: Ternary, n: nat) -> Seq<Ternary> {
        Seq::new(n, |i: int| self.apply_n(x, i as nat))
    }

    /// Applies the rule to one state.
    #[verifier::when_used_as_spec(spec_apply)]
    pub fn apply(&self, x: Ternary) -> (y: Ternary)
        ensures
            y == self.spec_apply(x),
            x == Ternary::Neg ==> y == self.on_neg,
            x == Ternary::Zero ==> y == self.on_zero,
            x == Ternary::Pos ==> y == self.on_pos,
    {
        match x {
            Ternary::Neg => self.on_neg,
            Ternary::Zero => self.on_zero,
            Ternary::Pos => self.on_pos,
        }
    }
}

/// The rule's image of a state is the table's entry for that state.
pub proof fn lemma_apply_reads_table(t: RuleTable)
    ensures
        t.spec_apply(Ternary::Neg) == t.on_neg,
        t.spec_apply(Ternary::Zero) == t.on_zero,
        t.spec_apply(Ternary::Pos) == t.on_pos,
{
}

/// Zero steps stay at the start; one step more is one application more;
/// and `n + 1` steps from `x` are `n` steps from the image of `x`.
pub proof fn lemma_apply_n_steps(r: RuleTable, x: Ternary, n: nat)
    ensures
        r.apply_n(x, 0) == x,
        r.apply_n(x, 1) == r.spec_apply(x),
        r.apply_n(x, n + 1) == r.spec_apply(r.apply_n(x, n)),
        r.apply_n(x, n + 1) == r.apply_n(r.spec_apply(x), n),
{
    lemma_apply_n_add(r, x, 1, n);
}

/// The orbit of `x` over `n` states starts at `x`, and its `i`-th state is
/// reached from `x` in `i` steps.
pub proof fn lemma_orbit_states(r: RuleTable, x: Ternary, n: nat)
    ensures
        r.orbit(x, n).len() == n,
        n >= 1 ==> r.orbit(x, n)[0] == x,
        forall|i: int| 0 <= i < n ==> #[trigger] r.orbit(x, n)[i] == r.apply_n(x, i as nat),
        forall|i: int| 0 <= i < n - 1 ==> #[trigger] r.spec_apply(r.orbit(x, n)[i]) == r.orbit(x, n)[i + 1],
{
    assert forall|i: int| 0 <= i < n - 1 implies #[trigger] r.spec_apply(r.orbit(x, n)[i]) == r.orbit(x, n)[i + 1] by {
        lemma_apply_n_steps(r, x, i as nat);
    }
}

/// Iterating `a` steps and then `b` steps is iterating `a + b` steps.
pub proof fn lemma_apply_n_add(r: RuleTable, x: Ternary, a: nat, b: nat)
    ensures
        r.apply_n(r.apply_n(x, a), b) == r.apply_n(x, a + b),
    decreases b,
{
    if b > 0 {
        lemma_apply_n_add(r, x, a, (b - 1) as nat);
    }
}

/// Once two trajectories of one rule meet, they agree at every later step.
pub proof fn lemma_merged_orbits_stay_merged(r: RuleTable, x: Ternary, y: Ternary, k: nat, m: nat)
    requires
        r.apply_n(x, k) == r.apply_n(y, k),
        k <= m,
    ensures
        r.apply_n(x, m) == r.apply_n(y, m),
    decreases m - k,
{
    if k < m {
        lemma_merged_orbits_stay_merged(r, x, y, k, (m - 1) as nat);
    }
}

/// If the orbit of `x` repeats with period `q` from step `i` on, it does so
/// at every later step too.
pub proof fn lemma_eventually_periodic(r: RuleTable, x: Ternary, i: nat, q: nat, n: nat)
    requires
        r.apply_n(x, i + q) == r.apply_n(x, i),
        i <= n,
    ensures
        r.apply_n(x, n + q) == r.apply_n(x, n),
    decreases n - i,
{
    if i < n {
        lemma_eventually_periodic(r, x, i, q, (n - 1) as nat);
        assert(r.apply_n(x, n + q) == r.spec_apply(r.apply_n(x, (n - 1 + q) as nat)));
    }
}

} // verus!
