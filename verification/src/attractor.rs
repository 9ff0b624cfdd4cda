use std::collections::HashMap;

use vstd::prelude::*;

use crate::cycles::state_index;
use crate::map::TernaryMap;
use crate::rule::{RuleTable, lemma_apply_n_add};
use crate::ternary::Ternary;

verus! {

/// Result of strange attractor detection.
pub struct StrangeAttractorResult {
    /// No period shows and the trajectory visits at least two states along
    /// at least two distinct transitions.
    pub is_strange: bool,
    /// For each visited state, keyed by its value, how often it was visited.
    pub visits: HashMap<i8, usize>,
    /// The number of distinct transitions between consecutive states.
    pub transitions: usize,
    /// The period found from the initial state, if any.
    pub period: Option<usize>,
    /// The number of distinct states visited.
    pub unique_states: usize,
}

impl RuleTable {
    /// The `n` states that follow `s`, in order (without `s` itself).
    pub open spec fn path(&self, s: Ternary, n: nat) -> Seq<Ternary> {
        Seq::new(n, |i: int| self.apply_n(s, (i + 1) as nat))
    }
}

/// How often `t` occurs in `p`.
pub open spec fn occurrences(p: Seq<Ternary>, t: Ternary) -> nat
    decreases p.len(),
{
    if p.len() == 0 {
        0
    } else {
        occurrences(p.drop_last(), t) + if p.last() == t { 1nat } else { 0nat }
    }
}

/// 1 for true, 0 for false.
pub open spec fn indicator(b: bool) -> nat {
    if b { 1 } else { 0 }
}

/// The number of distinct states that occur in `p`.
pub open spec fn distinct_states(p: Seq<Ternary>) -> nat {
    indicator(occurrences(p, Ternary::Neg) > 0) + indicator(occurrences(p, Ternary::Zero) > 0)
        + indicator(occurrences(p, Ternary::Pos) > 0)
}

/// Among the first `n` states of `p`, `a` is directly followed by `b`.
pub open spec fn has_transition_before(p: Seq<Ternary>, n: int, a: Ternary, b: Ternary) -> bool {
    exists|k: int| 1 <= k < n && #[trigger] p[k] == b && p[k - 1] == a
}

/// Somewhere in `p`, `a` is directly followed by `b`.
pub open spec fn has_transition(p: Seq<Ternary>, a: Ternary, b: Ternary) -> bool {
    has_transition_before(p, p.len() as int, a, b)
}

/// The number of distinct transitions out of `a` in `p`.
pub open spec fn distinct_transitions_from(p: Seq<Ternary>, a: Ternary) -> nat {
    indicator(has_transition(p, a, Ternary::Neg)) + indicator(has_transition(p, a, Ternary::Zero))
        + indicator(has_transition(p, a, Ternary::Pos))
}

/// The number of distinct transitions `(a, b)` between consecutive states of `p`.
pub open spec fn distinct_transitions(p: Seq<Ternary>) -> nat {
    distinct_transitions_from(p, Ternary::Neg) + distinct_transitions_from(p, Ternary::Zero)
        + distinct_transitions_from(p, Ternary::Pos)
}

/// The slot of the transition `(a, b)` in a table of nine.
pub open spec fn transition_slot(a: Ternary, b: Ternary) -> int {
    3 * state_index(a) + state_index(b)
}

/// The number of true entries among the first `n` of `v`.
pub open spec fn count_true(v: Seq<bool>, n: int) -> nat
    decreases n,
{
    if n <= 0 {
        0
    } else {
        count_true(v, n - 1) + indicator(v[n - 1])
    }
}

/// The path of `n + 1` states from `s` is the image of `s` followed by the
/// path of `n` states from that image.
proof fn lemma_path_unfolds(r: RuleTable, s: Ternary, n: nat)
    ensures
        r.path(s, n + 1) == seq![r.spec_apply(s)] + r.path(r.spec_apply(s), n),
{
    let a = r.spec_apply(s);
    let lhs = r.path(s, n + 1);
    let rhs = seq![a] + r.path(a, n);
    assert forall|i: int| 0 <= i < n + 1 implies #[trigger] lhs[i] == rhs[i] by {
        lemma_apply_n_add(r, s, 1, i as nat);
        assert(r.apply_n(s, 0) == s);
        assert(r.apply_n(s, 1) == a);
        if i > 0 {
            assert(rhs[i] == r.path(a, n)[i - 1]);
        }
    }
    assert(lhs =~= rhs);
}

/// The path of `n` states from `s` holds the states after one, two, ...,
/// `n` steps: it starts with the image of `s` (never with `s` itself), each
/// state is the image of the one before, and the path of `n + 1` states is
/// the image of `s` followed by the path of `n` states from that image.
pub proof fn lemma_path_states(r: RuleTable, s: Ternary, n: nat)
    ensures
        r.path(s, n).len() == n,
        forall|i: int| 0 <= i < n ==> #[trigger] r.path(s, n)[i] == r.apply_n(s, (i + 1) as nat),
        n >= 1 ==> r.path(s, n)[0] == r.spec_apply(s),
        forall|i: int| 0 <= i < n - 1 ==> r.path(s, n)[i + 1] == #[trigger] r.spec_apply(r.path(s, n)[i]),
        r.path(s, n + 1) == seq![r.spec_apply(s)] + r.path(r.spec_apply(s), n),
        r.path(s, n + 1) == r.path(s, n).push(r.apply_n(s, n + 1)),
{
    assert(r.apply_n(s, 0) == s);
    assert(r.apply_n(s, 1) == r.spec_apply(s));
    assert forall|i: int| 0 <= i < n - 1 implies r.path(s, n)[i + 1] == #[trigger] r.spec_apply(r.path(s, n)[i]) by {
        assert(r.path(s, n)[i + 1] == r.apply_n(s, (i + 2) as nat));
        assert(r.path(s, n)[i] == r.apply_n(s, (i + 1) as nat));
    }
    lemma_path_unfolds(r, s, n);
    assert(r.path(s, n + 1) =~= r.path(s, n).push(r.apply_n(s, n + 1)));
}

/// Occurrences add up over a concatenation, are positive exactly for the
/// states that occur, and over the three states sum to the length.
pub proof fn lemma_occurrences(p: Seq<Ternary>, q: Seq<Ternary>, t: Ternary)
    ensures
        occurrences(p + q, t) == occurrences(p, t) + occurrences(q, t),
        occurrences(p, t) > 0 <==> p.contains(t),
        occurrences(p, t) <= p.len(),
        occurrences(p, Ternary::Neg) + occurrences(p, Ternary::Zero) + occurrences(p, Ternary::Pos) == p.len(),
        occurrences(seq![t], t) == 1,
    decreases q.len(),
{
    lemma_occurrences_basic(p, t);
    if q.len() > 0 {
        lemma_occurrences(p, q.drop_last(), t);
        assert((p + q).drop_last() =~= p + q.drop_last());
    } else {
        assert(p + q =~= p);
    }
    reveal_with_fuel(occurrences, 2);
}

proof fn lemma_occurrences_basic(p: Seq<Ternary>, t: Ternary)
    ensures
        occurrences(p, t) > 0 <==> p.contains(t),
        occurrences(p, t) <= p.len(),
        occurrences(p, Ternary::Neg) + occurrences(p, Ternary::Zero) + occurrences(p, Ternary::Pos) == p.len(),
    decreases p.len(),
{
    if p.len() > 0 {
        lemma_occurrences_basic(p.drop_last(), t);
        if p.drop_last().contains(t) {
            let i = choose|i: int| 0 <= i < p.drop_last().len() && p.drop_last()[i] == t;
            assert(p[i] == t);
        }
        if p.contains(t) && p.last() != t {
            let i = choose|i: int| 0 <= i < p.len() && p[i] == t;
            assert(p.drop_last()[i] == t);
        }
    }
}

/// The number of distinct states is at least one for a nonempty path, at
/// most the length and at most three, and three exactly when all occur.
pub proof fn lemma_distinct_states_bounds(p: Seq<Ternary>)
    ensures
        p.len() >= 1 ==> distinct_states(p) >= 1,
        distinct_states(p) <= p.len(),
        distinct_states(p) <= 3,
        distinct_states(p) == 3 <==> (p.contains(Ternary::Neg) && p.contains(Ternary::Zero) && p.contains(Ternary::Pos)),
{
    lemma_occurrences_basic(p, Ternary::Neg);
    lemma_occurrences_basic(p, Ternary::Zero);
    lemma_occurrences_basic(p, Ternary::Pos);
    if p.len() >= 1 {
        lemma_occurrences_basic(p, p[0]);
        assert(p.contains(p[0]));
    }
}

/// Every pair of consecutive states of a path, a state followed by itself
/// included, is one of its transitions; only such pairs are; a path of two or
/// more states has at least one transition and at most one per consecutive
/// pair.
pub proof fn lemma_transitions(p: Seq<Ternary>)
    ensures
        forall|i: int| 1 <= i < p.len() ==> has_transition(p, p[i - 1], #[trigger] p[i]),
        forall|a: Ternary, b: Ternary| #[trigger] has_transition(p, a, b) ==>
            exists|i: int| 1 <= i < p.len() && p[i - 1] == a && #[trigger] p[i] == b,
        p.len() >= 2 ==> distinct_transitions(p) >= 1,
        distinct_transitions(p) <= 9,
{
    assert forall|i: int| 1 <= i < p.len() implies has_transition(p, p[i - 1], #[trigger] p[i]) by {
        assert(p[i] == p[i] && p[i - 1] == p[i - 1]);
    }
    if p.len() >= 2 {
        assert(has_transition(p, p[0], p[1]));
    }
}

/// For a rule that sends every state to one state `c`, the `n >= 1` steps
/// from any start visit `c` exactly `n` times and nothing else, so one state
/// is visited, and there is exactly one transition, `c` to `c`, once there
/// are two states or more.
pub proof fn lemma_constant_rule_statistics(r: RuleTable, c: Ternary, s: Ternary, n: nat)
    requires
        r.on_neg == c,
        r.on_zero == c,
        r.on_pos == c,
        n >= 1,
    ensures
        occurrences(r.path(s, n), c) == n,
        forall|t: Ternary| t != c ==> occurrences(#[trigger] r.path(s, n), t) == 0,
        distinct_states(r.path(s, n)) == 1,
        distinct_transitions(r.path(s, n)) == if n >= 2 { 1nat } else { 0nat },
{
    let p = r.path(s, n);
    lemma_path_states(r, s, n);
    assert forall|i: int| 0 <= i < n implies #[trigger] p[i] == c by {
        assert(p[i] == r.apply_n(s, (i + 1) as nat));
        assert(r.apply_n(s, (i + 1) as nat) == r.spec_apply(r.apply_n(s, i as nat)));
    }
    lemma_occurrences_basic(p, Ternary::Neg);
    lemma_occurrences_basic(p, Ternary::Zero);
    lemma_occurrences_basic(p, Ternary::Pos);
    assert forall|t: Ternary| t != c implies occurrences(#[trigger] r.path(s, n), t) == 0 by {
        lemma_occurrences_basic(p, t);
        if p.contains(t) {
            let i = choose|i: int| 0 <= i < p.len() && p[i] == t;
        }
    }
    assert(p.contains(c)) by {
        assert(p[0] == c);
    }
    lemma_transitions(p);
    assert forall|a: Ternary, b: Ternary| #[trigger] has_transition(p, a, b) implies a == c && b == c by {
        let i = choose|i: int| 1 <= i < p.len() && p[i - 1] == a && #[trigger] p[i] == b;
    }
    if n >= 2 {
        assert(has_transition(p, c, c)) by {
            assert(p[1] == c && p[0] == c);
        }
    }
}

fn slot_of(a: Ternary, b: Ternary) -> (c: usize)
    ensures
        c == transition_slot(a, b),
        c < 9,
{
    let ia: usize = match a {
        Ternary::Neg => 0,
        Ternary::Zero => 1,
        Ternary::Pos => 2,
    };
    let ib: usize = match b {
        Ternary::Neg => 0,
        Ternary::Zero => 1,
        Ternary::Pos => 2,
    };
    3 * ia + ib
}

/// The visits to each state along `p`, keyed by the state's value.
fn count_visits(p: &Vec<Ternary>) -> (visits: HashMap<i8, usize>)
    ensures
        forall|t: Ternary| #[trigger] visits@.contains_key(t.spec_value()) <==> occurrences(p@, t) > 0,
        forall|t: Ternary| #[trigger] visits@.contains_key(t.spec_value()) ==> visits@[t.spec_value()] == occurrences(p@, t),
        forall|k: i8| #[trigger] visits@.contains_key(k) ==> -1 <= k <= 1,
        visits@.len() == distinct_states(p@),
{
    let mut n_neg: usize = 0;
    let mut n_zero: usize = 0;
    let mut n_pos: usize = 0;
    let mut i: usize = 0;
    while i < p.len()
        invariant
            i <= p@.len(),
            n_neg == occurrences(p@.take(i as int), Ternary::Neg),
            n_zero == occurrences(p@.take(i as int), Ternary::Zero),
            n_pos == occurrences(p@.take(i as int), Ternary::Pos),
            n_neg <= i && n_zero <= i && n_pos <= i,
        decreases p.len() - i,
    {
        match p[i] {
            Ternary::Neg => n_neg += 1,
            Ternary::Zero => n_zero += 1,
            Ternary::Pos => n_pos += 1,
        }
        i += 1;
        assert(p@.take(i as int).drop_last() =~= p@.take(i - 1));
    }
    assert(p@.take(p@.len() as int) =~= p@);
    let mut visits: HashMap<i8, usize> = HashMap::new();
    if n_neg > 0 {
        visits.insert(-1, n_neg);
    }
    if n_zero > 0 {
        visits.insert(0, n_zero);
    }
    if n_pos > 0 {
        visits.insert(1, n_pos);
    }
    visits
}

/// The number of distinct transitions between consecutive states of `p`.
fn count_transitions(p: &Vec<Ternary>) -> (n: usize)
    ensures
        n == distinct_transitions(p@),
{
    let ghost path = p@;
    let mut seen: Vec<bool> = vec![false, false, false, false, false, false, false, false, false];
    let mut k: usize = 1;
    while k < p.len()
        invariant
            p@ == path,
            1 <= k,
            k <= path.len() || k == 1,
            seen@.len() == 9,
            forall|a: Ternary, b: Ternary| #[trigger] seen@[transition_slot(a, b)] == has_transition_before(path, k as int, a, b),
        decreases p.len() - k,
    {
        let c = slot_of(p[k - 1], p[k]);
        seen.set(c, true);
        assert forall|a: Ternary, b: Ternary| #[trigger] seen@[transition_slot(a, b)] == has_transition_before(path, k + 1, a, b) by {
            if a == path[k - 1] && b == path[k as int] {
                assert(path[k as int] == b && path[k - 1] == a);
            } else {
                if has_transition_before(path, k + 1, a, b) {
                    let w = choose|w: int| 1 <= w < k + 1 && #[trigger] path[w] == b && path[w - 1] == a;
                    assert(w != k);
                }
            }
        }
        k += 1;
    }
    let mut transitions: usize = 0;
    let mut c: usize = 0;
    while c < 9
        invariant
            c <= 9,
            seen@.len() == 9,
            transitions == count_true(seen@, c as int),
            transitions <= c,
        decreases 9 - c,
    {
        if seen[c] {
            transitions += 1;
        }
        c += 1;
    }
    proof {
        assert forall|a: Ternary, b: Ternary| #[trigger] seen@[transition_slot(a, b)] == has_transition(path, a, b) by {
            assert(seen@[transition_slot(a, b)] == has_transition_before(path, k as int, a, b));
            if k > path.len() {
                assert(!has_transition_before(path, k as int, a, b));
                assert(!has_transition_before(path, path.len() as int, a, b));
            }
        }
        let n = Ternary::Neg;
        let z = Ternary::Zero;
        let q = Ternary::Pos;
        assert(seen@[transition_slot(n, n)] == has_transition(path, n, n));
        assert(seen@[transition_slot(n, z)] == has_transition(path, n, z));
        assert(seen@[transition_slot(n, q)] == has_transition(path, n, q));
        assert(seen@[transition_slot(z, n)] == has_transition(path, z, n));
        assert(seen@[transition_slot(z, z)] == has_transition(path, z, z));
        assert(seen@[transition_slot(z, q)] == has_transition(path, z, q));
        assert(seen@[transition_slot(q, n)] == has_transition(path, q, n));
        assert(seen@[transition_slot(q, z)] == has_transition(path, q, z));
        assert(seen@[transition_slot(q, q)] == has_transition(path, q, q));
        reveal_with_fuel(count_true, 10);
    }
    transitions
}

/// Detects strange attractors in ternary space: runs the rule `iterations`
/// times from `initial`, counts the visits to each state and the distinct
/// transitions between consecutive states, and looks for a period from
/// `initial` within `min(iterations, 200)` steps. The behaviour is strange
/// when no period shows, at least two states are visited and at least two
/// distinct transitions occur.
pub fn detect_strange_attractor(rule: RuleTable, initial: Ternary, iterations: usize) -> (res: StrangeAttractorResult)
    ensures
        forall|t: Ternary| #[trigger] res.visits@.contains_key(t.spec_value())
            <==> occurrences(rule.path(initial, iterations as nat), t) > 0,
        forall|t: Ternary| #[trigger] res.visits@.contains_key(t.spec_value())
            ==> res.visits@[t.spec_value()] == occurrences(rule.path(initial, iterations as nat), t),
        forall|k: i8| #[trigger] res.visits@.contains_key(k) ==> -1 <= k <= 1,
        res.unique_states == distinct_states(rule.path(initial, iterations as nat)),
        res.transitions == distinct_transitions(rule.path(initial, iterations as nat)),
        rule.period_outcome(initial, if iterations < 200 { iterations as int } else { 200 }, res.period),
        res.is_strange == (res.period is None && res.unique_states >= 2 && res.transitions >= 2),
        iterations >= 5 ==> res.period is Some && !res.is_strange,
{
    let ghost path = rule.path(initial, iterations as nat);
    let mut state = initial;
    let mut trajectory: Vec<Ternary> = Vec::new();
    let mut i: usize = 0;
    while i < iterations
        invariant
            i <= iterations,
            path == rule.path(initial, iterations as nat),
            state == rule.apply_n(initial, i as nat),
            trajectory@ == path.take(i as int),
        decreases iterations - i,
    {
        state = rule.apply(state);
        trajectory.push(state);
        i += 1;
        assert(trajectory@ =~= path.take(i as int));
    }
    assert(path.take(iterations as int) =~= path);
    let visits = count_visits(&trajectory);

    let mut map = TernaryMap::new(initial, rule);
    let limit: usize = if iterations < 200 { iterations } else { 200 };
    let period = map.detect_period(limit);

    let transitions = count_transitions(&trajectory);
    let unique_states = visits.len();
    let is_strange = period.is_none() && unique_states >= 2 && transitions >= 2;
    StrangeAttractorResult { is_strange, visits, transitions, period, unique_states }
}

} // verus!
