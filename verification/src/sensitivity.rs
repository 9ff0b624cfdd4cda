use vstd::prelude::*;

use crate::rule::{RuleTable, lemma_merged_orbits_stay_merged};
use crate::ternary::Ternary;

verus! {

impl RuleTable {
    /// The number of steps among the first `n` at which the trajectories of
    /// `x` and `y` are in different states.
    pub open spec fn divergence_count(&self, x: Ternary, y: Ternary, n: nat) -> nat
        decreases n,
    {
        if n == 0 {
            0
        } else {
            self.divergence_count(x, y, (n - 1) as nat) + if self.apply_n(x, n) != self.apply_n(y, n) {
                1nat
            } else {
                0nat
            }
        }
    }

    /// The divergence counts of `states[i]` paired with each later state, in order.
    pub open spec fn divergence_row(&self, states: Seq<Ternary>, i: int, n: nat) -> Seq<nat> {
        Seq::new(
            (states.len() - 1 - i) as nat,
            |d: int| self.divergence_count(states[i], states[i + 1 + d], n),
        )
    }

    /// The divergence counts of every pair `i < j` with `i < m`, pairs taken
    /// in order of `i` and then of `j`.
    pub open spec fn divergence_rows(&self, states: Seq<Ternary>, m: int, n: nat) -> Seq<nat>
        decreases m,
    {
        if m <= 0 {
            seq![]
        } else {
            self.divergence_rows(states, m - 1, n) + self.divergence_row(states, m - 1, n)
        }
    }
}

/// A trajectory never diverges from itself.
pub proof fn lemma_no_divergence_from_itself(r: RuleTable, x: Ternary, n: nat)
    ensures
        r.divergence_count(x, x, n) == 0,
    decreases n,
{
    if n > 0 {
        lemma_no_divergence_from_itself(r, x, (n - 1) as nat);
    }
}

impl RuleTable {
    /// The trajectories of `x` and `y` differ at every step `1..m`.
    pub open spec fn apart_before(&self, x: Ternary, y: Ternary, m: nat) -> bool {
        forall|k: nat| 1 <= k < m ==> #[trigger] self.apply_n(x, k) != self.apply_n(y, k)
    }
}

/// Two trajectories diverge on at most as many steps as are taken.
pub proof fn lemma_divergence_at_most_steps(r: RuleTable, x: Ternary, y: Ternary, n: nat)
    ensures
        r.divergence_count(x, y, n) <= n,
    decreases n,
{
    if n > 0 {
        lemma_divergence_at_most_steps(r, x, y, (n - 1) as nat);
    }
}

/// Trajectories that are apart after `n` steps were apart at every step
/// before: the steps on which two trajectories diverge come first, and once
/// they meet they never part, so a count below `n` means they have met.
pub proof fn lemma_divergence_is_a_prefix(r: RuleTable, x: Ternary, y: Ternary, n: nat)
    ensures
        r.apply_n(x, n) != r.apply_n(y, n) ==> r.divergence_count(x, y, n) == n,
        r.divergence_count(x, y, n) < n ==> r.apply_n(x, n) == r.apply_n(y, n),
    decreases n,
{
    lemma_divergence_at_most_steps(r, x, y, n);
    if n > 0 {
        lemma_divergence_is_a_prefix(r, x, y, (n - 1) as nat);
        if r.apply_n(x, (n - 1) as nat) == r.apply_n(y, (n - 1) as nat) {
            lemma_merged_orbits_stay_merged(r, x, y, (n - 1) as nat, n);
        }
    }
}

/// Each step adds one to the divergence count when the trajectories differ
/// at that step and nothing otherwise: counting is never undone, so the count
/// never decreases as steps are added.
pub proof fn lemma_divergence_step(r: RuleTable, x: Ternary, y: Ternary, n: nat)
    ensures
        r.apply_n(x, n + 1) != r.apply_n(y, n + 1) ==> r.divergence_count(x, y, n + 1) == r.divergence_count(x, y, n) + 1,
        r.apply_n(x, n + 1) == r.apply_n(y, n + 1) ==> r.divergence_count(x, y, n + 1) == r.divergence_count(x, y, n),
        r.divergence_count(x, y, n) <= r.divergence_count(x, y, n + 1),
        r.divergence_count(x, y, 0) == 0,
{
}

/// Adding steps never lowers the divergence count.
pub proof fn lemma_divergence_monotone(r: RuleTable, x: Ternary, y: Ternary, m: nat, n: nat)
    requires
        m <= n,
    ensures
        r.divergence_count(x, y, m) <= r.divergence_count(x, y, n),
    decreases n - m,
{
    if m < n {
        lemma_divergence_monotone(r, x, y, m, (n - 1) as nat);
        lemma_divergence_step(r, x, y, (n - 1) as nat);
    }
}

/// When the trajectories first meet at step `m`, having differed at every
/// step before, the count over any `n >= m` steps is `m - 1`; while they have
/// not met, the count is the number of steps taken.
pub proof fn lemma_divergence_until_meeting(r: RuleTable, x: Ternary, y: Ternary, m: nat, n: nat)
    requires
        r.apart_before(x, y, m),
    ensures
        n < m ==> r.divergence_count(x, y, n) == n,
        1 <= m <= n && r.apply_n(x, m) == r.apply_n(y, m) ==> r.divergence_count(x, y, n) == m - 1,
    decreases n,
{
    if n > 0 {
        let pn = (n - 1) as nat;
        lemma_divergence_until_meeting(r, x, y, m, pn);
        lemma_divergence_step(r, x, y, pn);
        if n < m {
            assert(r.apply_n(x, n) != r.apply_n(y, n));
        }
        if 1 <= m < n && r.apply_n(x, m) == r.apply_n(y, m) {
            lemma_merged_orbits_stay_merged(r, x, y, m, n);
        }
    }
}

/// The counts for all pairs are the counts of the first state with each later
/// state, followed by the counts for all pairs among the remaining states.
pub proof fn lemma_divergence_rows_split(r: RuleTable, states: Seq<Ternary>, m: int, n: nat)
    requires
        1 <= m <= states.len(),
    ensures
        r.divergence_rows(states, m, n) == r.divergence_row(states, 0, n) + r.divergence_rows(states.drop_first(), m - 1, n),
    decreases m,
{
    let rest = states.drop_first();
    if m == 1 {
        assert(r.divergence_rows(states, 0, n) =~= seq![]);
        assert(r.divergence_rows(states, 1, n) =~= r.divergence_row(states, 0, n));
        assert(r.divergence_rows(rest, 0, n) =~= seq![]);
        assert(r.divergence_row(states, 0, n) + r.divergence_rows(rest, 0, n) =~= r.divergence_row(states, 0, n));
    } else {
        lemma_divergence_rows_split(r, states, m - 1, n);
        assert(r.divergence_row(states, m - 1, n) =~= r.divergence_row(rest, m - 2, n));
        assert(r.divergence_rows(states, m, n) =~= r.divergence_row(states, 0, n) + r.divergence_rows(rest, m - 1, n));
    }
}

/// Two initial states give exactly one count, their divergence count; three
/// give the pairs (0, 1), (0, 2), (1, 2) in that order.
pub proof fn lemma_divergence_rows_small(r: RuleTable, states: Seq<Ternary>, n: nat)
    ensures
        states.len() == 2 ==> r.divergence_rows(states, 2, n) == seq![r.divergence_count(states[0], states[1], n)],
        states.len() == 3 ==> r.divergence_rows(states, 3, n) == seq![
            r.divergence_count(states[0], states[1], n),
            r.divergence_count(states[0], states[2], n),
            r.divergence_count(states[1], states[2], n),
        ],
        states.len() <= 1 ==> r.divergence_rows(states, states.len() as int, n).len() == 0,
{
    reveal_with_fuel(RuleTable::divergence_rows, 4);
    if states.len() == 2 {
        assert(r.divergence_rows(states, 2, n) =~= seq![r.divergence_count(states[0], states[1], n)]);
    }
    if states.len() == 3 {
        assert(r.divergence_rows(states, 3, n) =~= seq![
            r.divergence_count(states[0], states[1], n),
            r.divergence_count(states[0], states[2], n),
            r.divergence_count(states[1], states[2], n),
        ]);
    }
    if states.len() == 1 {
        assert(r.divergence_row(states, 0, n).len() == 0);
    }
}

/// For every pair of initial states `states[i]`, `states[j]` with `i < j`,
/// in order of `i` and then of `j`, runs both trajectories `iterations`
/// steps and counts the steps at which they are in different states.
pub fn pairwise_divergence_counts(rule: RuleTable, states: &[Ternary], iterations: usize) -> (counts: Vec<usize>)
    ensures
        counts@.map_values(|c: usize| c as nat) == rule.divergence_rows(states@, states@.len() as int, iterations as nat),
        forall|k: int| 0 <= k < counts@.len() ==> #[trigger] counts@[k] <= iterations,
{
    let n = states.len();
    let mut counts: Vec<usize> = Vec::new();
    let mut i: usize = 0;
    while i < n
        invariant
            n == states@.len(),
            i <= n,
            counts@.map_values(|c: usize| c as nat) == rule.divergence_rows(states@, i as int, iterations as nat),
            forall|k: int| 0 <= k < counts@.len() ==> #[trigger] counts@[k] <= iterations,
        decreases n - i,
    {
        let ghost before = counts@.map_values(|c: usize| c as nat);
        let ghost row = rule.divergence_row(states@, i as int, iterations as nat);
        let mut j: usize = i + 1;
        while j < n
            invariant
                n == states@.len(),
                i < n,
                i + 1 <= j <= n,
                before == rule.divergence_rows(states@, i as int, iterations as nat),
                row == rule.divergence_row(states@, i as int, iterations as nat),
                counts@.map_values(|c: usize| c as nat) == before + row.take(j - i - 1),
                forall|k: int| 0 <= k < counts@.len() ==> #[trigger] counts@[k] <= iterations,
            decreases n - j,
        {
            let mut s1 = states[i];
            let mut s2 = states[j];
            let mut diff_count: usize = 0;
            let mut k: usize = 0;
            while k < iterations
                invariant
                    k <= iterations,
                    s1 == rule.apply_n(states@[i as int], k as nat),
                    s2 == rule.apply_n(states@[j as int], k as nat),
                    diff_count == rule.divergence_count(states@[i as int], states@[j as int], k as nat),
                    diff_count <= k,
                decreases iterations - k,
            {
                s1 = rule.apply(s1);
                s2 = rule.apply(s2);
                if s1 != s2 {
                    diff_count += 1;
                }
                k += 1;
            }
            let ghost prev = counts@;
            counts.push(diff_count);
            assert(row[j - i - 1] == diff_count);
            assert(counts@.map_values(|c: usize| c as nat) =~= prev.map_values(|c: usize| c as nat).push(diff_count as nat));
            j += 1;
            assert(counts@.map_values(|c: usize| c as nat) =~= before + row.take(j - i - 1));
        }
        i += 1;
        assert(row.take(n - (i - 1) - 1) =~= row);
    }
    counts
}

} // verus!
