use vstd::prelude::*;

use crate::rule::{RuleTable, lemma_apply_n_add, lemma_eventually_periodic};
use crate::ternary::Ternary;

verus! {

/// The three states in their order: Neg, Zero, Pos.
pub open spec fn all_states() -> Seq<Ternary> {
    seq![Ternary::Neg, Ternary::Zero, Ternary::Pos]
}

/// The position of a state in `all_states()`.
pub open spec fn state_index(t: Ternary) -> int {
    match t {
        Ternary::Neg => 0,
        Ternary::Zero => 1,
        Ternary::Pos => 2,
    }
}

/// Every state of `c` equals the state at the same place in the block of
/// its first `d` states.
pub open spec fn repeats_with(c: Seq<Ternary>, d: int) -> bool {
    forall|k: int| 0 <= k < c.len() ==> #[trigger] c[k] == c[k % d]
}

/// `c` is not a shorter block repeated a whole number of times.
pub open spec fn is_primitive(c: Seq<Ternary>) -> bool {
    forall|d: int| 1 <= d < c.len() && (c.len() as int) % d == 0 ==> !#[trigger] repeats_with(c, d)
}

/// The contents of a list of cycles.
pub open spec fn cycle_views(v: Seq<Vec<Ternary>>) -> Seq<Seq<Ternary>> {
    v.map_values(|c: Vec<Ternary>| c@)
}

impl RuleTable {
    /// Starting at `s`, the rule comes back to `s` after `len` steps, and
    /// the `len` states on the way are not a shorter cycle gone round
    /// several times.
    pub open spec fn closes_primitively(&self, s: Ternary, len: nat) -> bool {
        &&& self.apply_n(s, len) == s
        &&& is_primitive(self.orbit(s, len))
    }

    /// The cycles of length `len` that start at the first `k` states of
    /// `all_states()`, in that order.
    pub open spec fn cycles_from_first(&self, len: nat, k: nat) -> Seq<Seq<Ternary>>
        decreases k,
    {
        if k == 0 {
            seq![]
        } else {
            let s = all_states()[k - 1];
            self.cycles_from_first(len, (k - 1) as nat) + if self.closes_primitively(s, len) {
                seq![self.orbit(s, len)]
            } else {
                seq![]
            }
        }
    }

    /// The cycles of length `len`, one for each start that closes on itself.
    pub open spec fn cycles_of_length(&self, len: nat) -> Seq<Seq<Ternary>> {
        self.cycles_from_first(len, 3)
    }

    /// The cycles of lengths `1..=max`, shortest first.
    pub open spec fn cycles_up_to(&self, max: nat) -> Seq<Seq<Ternary>>
        decreases max,
    {
        if max == 0 {
            seq![]
        } else {
            self.cycles_up_to((max - 1) as nat) + self.cycles_of_length(max)
        }
    }
}

/// The sort key of a cycle: its length first, then its starting state.
pub open spec fn cycle_key(c: Seq<Ternary>) -> int {
    3 * c.len() + state_index(c[0])
}

/// The keys of `v` strictly increase and lie in `lo..hi`.
pub open spec fn keys_sorted_within(v: Seq<Seq<Ternary>>, lo: int, hi: int) -> bool {
    &&& forall|a: int| 0 <= a < v.len() ==> lo <= #[trigger] cycle_key(v[a]) < hi && v[a].len() >= 1
    &&& forall|a: int, b: int| 0 <= a < b < v.len() ==> cycle_key(#[trigger] v[a]) < cycle_key(#[trigger] v[b])
}

proof fn lemma_concat_sorted(x: Seq<Seq<Ternary>>, y: Seq<Seq<Ternary>>, lo: int, mid: int, hi: int)
    requires
        lo <= mid <= hi,
        keys_sorted_within(x, lo, mid),
        keys_sorted_within(y, mid, hi),
    ensures
        keys_sorted_within(x + y, lo, hi),
{
    let z = x + y;
    assert forall|a: int, b: int| 0 <= a < b < z.len() implies cycle_key(#[trigger] z[a]) < cycle_key(#[trigger] z[b]) by {
        if b < x.len() {
            assert(z[a] == x[a] && z[b] == x[b]);
        } else if a >= x.len() {
            assert(z[a] == y[a - x.len()] && z[b] == y[b - x.len()]);
        } else {
            assert(z[a] == x[a] && z[b] == y[b - x.len()]);
            assert(cycle_key(x[a]) < mid);
            assert(mid <= cycle_key(y[b - x.len()]));
        }
    }
    assert forall|a: int| 0 <= a < z.len() implies lo <= #[trigger] cycle_key(z[a]) < hi && z[a].len() >= 1 by {
        if a < x.len() {
            assert(z[a] == x[a]);
        } else {
            assert(z[a] == y[a - x.len()]);
        }
    }
}

proof fn lemma_cycles_from_first_sorted(r: RuleTable, len: nat, k: nat)
    requires
        len >= 1,
        k <= 3,
    ensures
        keys_sorted_within(r.cycles_from_first(len, k), 3 * len as int, (3 * len + k) as int),
    decreases k,
{
    if k > 0 {
        lemma_cycles_from_first_sorted(r, len, (k - 1) as nat);
        let s = all_states()[k - 1];
        let tail: Seq<Seq<Ternary>> = if r.closes_primitively(s, len) {
            seq![r.orbit(s, len)]
        } else {
            seq![]
        };
        if r.closes_primitively(s, len) {
            assert(r.orbit(s, len)[0] == s);
            assert(state_index(s) == k - 1);
        }
        assert(keys_sorted_within(tail, 3 * len + k - 1, (3 * len + k) as int));
        lemma_concat_sorted(r.cycles_from_first(len, (k - 1) as nat), tail, 3 * len as int, 3 * len + k - 1, (3 * len + k) as int);
    }
}

/// The cycles of lengths up to `max` come strictly sorted by length and
/// then by starting state.
proof fn lemma_cycles_up_to_sorted(r: RuleTable, max: nat)
    ensures
        keys_sorted_within(r.cycles_up_to(max), 3, 3 * max as int + 3),
    decreases max,
{
    if max > 0 {
        lemma_cycles_up_to_sorted(r, (max - 1) as nat);
        lemma_cycles_from_first_sorted(r, max, 3);
        lemma_concat_sorted(r.cycles_up_to((max - 1) as nat), r.cycles_of_length(max), 3, 3 * max as int, 3 * max as int + 3);
    }
}

/// No cycle appears twice among the cycles of lengths up to `max`.
pub proof fn lemma_cycles_distinct(r: RuleTable, max: nat)
    ensures
        forall|a: int, b: int| 0 <= a < b < r.cycles_up_to(max).len() ==>
            #[trigger] r.cycles_up_to(max)[a] != #[trigger] r.cycles_up_to(max)[b],
{
    lemma_cycles_up_to_sorted(r, max);
}

impl RuleTable {
    /// `len` is the least period of `s`: `len` steps bring `s` back to
    /// itself, and no fewer steps do.
    pub open spec fn least_period(&self, s: Ternary, len: nat) -> bool {
        &&& len >= 1
        &&& self.apply_n(s, len) == s
        &&& forall|n: nat| 1 <= n < len ==> #[trigger] self.apply_n(s, n) != s
    }
}

/// When `m` steps bring `s` back to itself, `k` steps lead where `k % m`
/// steps do.
proof fn lemma_apply_n_mod(r: RuleTable, s: Ternary, m: nat, k: nat)
    requires
        m >= 1,
        r.apply_n(s, m) == s,
    ensures
        r.apply_n(s, k) == r.apply_n(s, k % m),
    decreases k,
{
    if k < m {
        vstd::arithmetic::div_mod::lemma_small_mod(k, m);
    } else {
        lemma_apply_n_mod(r, s, m, (k - m) as nat);
        lemma_eventually_periodic(r, s, 0, m, (k - m) as nat);
        vstd::arithmetic::div_mod::lemma_mod_add_multiples_vanish((k - m) as int, m as int);
    }
}

/// A start closes primitively after `len` steps exactly when `len` is its
/// least period.
pub proof fn lemma_primitive_iff_least_period(r: RuleTable, s: Ternary, len: nat)
    requires
        len >= 1,
    ensures
        r.closes_primitively(s, len) <==> r.least_period(s, len),
{
    let c = r.orbit(s, len);
    if r.least_period(s, len) {
        assert forall|d: int| 1 <= d < c.len() && (c.len() as int) % d == 0 implies !#[trigger] repeats_with(c, d) by {
            if repeats_with(c, d) {
                assert(c[d] == c[d % d]);
                assert(r.apply_n(s, d as nat) == s);
            }
        }
    }
    if r.closes_primitively(s, len) && !r.least_period(s, len) {
        // The least number of steps that bring `s` back, below `len`.
        let n0 = choose|n: nat| 1 <= n < len && #[trigger] r.apply_n(s, n) == s;
        let m = least_return(r, s, n0);
        lemma_apply_n_mod(r, s, m, len);
        assert(len % m < m);
        assert(len % m == 0) by {
            if len % m != 0 {
                assert(r.apply_n(s, len % m) == s);
            }
        }
        assert forall|k: int| 0 <= k < c.len() implies #[trigger] c[k] == c[k % (m as int)] by {
            lemma_apply_n_mod(r, s, m, k as nat);
        }
        assert(repeats_with(c, m as int));
    }
}

/// The least number of steps, at most `n`, that bring `s` back to itself.
proof fn least_return(r: RuleTable, s: Ternary, n: nat) -> (m: nat)
    requires
        n >= 1,
        r.apply_n(s, n) == s,
    ensures
        1 <= m <= n,
        r.apply_n(s, m) == s,
        forall|k: nat| 1 <= k < m ==> #[trigger] r.apply_n(s, k) != s,
    decreases n,
{
    if exists|k: nat| 1 <= k < n && #[trigger] r.apply_n(s, k) == s {
        let k = choose|k: nat| 1 <= k < n && #[trigger] r.apply_n(s, k) == s;
        least_return(r, s, k)
    } else {
        n
    }
}

/// `c` is the orbit of some start over its least period, of length at most `max`.
pub open spec fn is_reported_cycle(r: RuleTable, c: Seq<Ternary>, max: nat) -> bool {
    exists|s: Ternary, len: nat|
        1 <= len <= max && r.closes_primitively(s, len) && #[trigger] r.orbit(s, len) == c
}

proof fn lemma_cycles_from_first_reported(r: RuleTable, len: nat, k: nat, max: nat)
    requires
        1 <= len <= max,
        k <= 3,
    ensures
        forall|i: int| 0 <= i < r.cycles_from_first(len, k).len() ==>
            is_reported_cycle(r, #[trigger] r.cycles_from_first(len, k)[i], max),
    decreases k,
{
    if k > 0 {
        lemma_cycles_from_first_reported(r, len, (k - 1) as nat, max);
        let s = all_states()[k - 1];
        let prev = r.cycles_from_first(len, (k - 1) as nat);
        assert forall|i: int| 0 <= i < r.cycles_from_first(len, k).len() implies
            is_reported_cycle(r, #[trigger] r.cycles_from_first(len, k)[i], max) by {
            if i < prev.len() {
                assert(r.cycles_from_first(len, k)[i] == prev[i]);
            } else {
                assert(r.cycles_from_first(len, k)[i] == r.orbit(s, len));
            }
        }
    }
}

proof fn lemma_cycles_up_to_reported(r: RuleTable, max: nat, top: nat)
    requires
        max <= top,
    ensures
        forall|i: int| 0 <= i < r.cycles_up_to(max).len() ==>
            is_reported_cycle(r, #[trigger] r.cycles_up_to(max)[i], top),
    decreases max,
{
    if max > 0 {
        lemma_cycles_up_to_reported(r, (max - 1) as nat, top);
        lemma_cycles_from_first_reported(r, max, 3, top);
        let prev = r.cycles_up_to((max - 1) as nat);
        assert forall|i: int| 0 <= i < r.cycles_up_to(max).len() implies
            is_reported_cycle(r, #[trigger] r.cycles_up_to(max)[i], top) by {
            if i < prev.len() {
                assert(r.cycles_up_to(max)[i] == prev[i]);
            } else {
                assert(r.cycles_up_to(max)[i] == r.cycles_of_length(max)[i - prev.len()]);
            }
        }
    }
}

/// Each cycle found up to length `max` is a cycle of the rule: it is the
/// orbit of a state over that state's least period, which is at most `max`;
/// the rule sends each of its states to the next and the last back to the
/// first.
pub proof fn lemma_found_cycles_are_cycles(r: RuleTable, max: nat, i: int)
    requires
        0 <= i < r.cycles_up_to(max).len(),
    ensures
        exists|s: Ternary, len: nat|
            1 <= len <= max && r.least_period(s, len) && #[trigger] r.orbit(s, len) == r.cycles_up_to(max)[i],
        forall|k: int| 0 <= k < r.cycles_up_to(max)[i].len() ==>
            r.spec_apply(#[trigger] r.cycles_up_to(max)[i][k])
                == r.cycles_up_to(max)[i][(k + 1) % (r.cycles_up_to(max)[i].len() as int)],
{
    lemma_cycles_up_to_reported(r, max, max);
    let c = r.cycles_up_to(max)[i];
    assert(is_reported_cycle(r, c, max));
    let (s, len) = choose|s: Ternary, len: nat|
        1 <= len <= max && r.closes_primitively(s, len) && #[trigger] r.orbit(s, len) == c;
    lemma_primitive_iff_least_period(r, s, len);
    assert(r.orbit(s, len) == c);
    assert forall|k: int| 0 <= k < c.len() implies r.spec_apply(#[trigger] c[k]) == c[(k + 1) % (c.len() as int)] by {
        if k + 1 < len {
            vstd::arithmetic::div_mod::lemma_small_mod((k + 1) as nat, len);
        } else {
            vstd::arithmetic::div_mod::lemma_mod_self_0(len as int);
        }
    }
}

proof fn lemma_cycles_from_first_complete(r: RuleTable, len: nat, k: nat, j: nat)
    requires
        j < k <= 3,
        r.closes_primitively(all_states()[j as int], len),
    ensures
        r.cycles_from_first(len, k).contains(r.orbit(all_states()[j as int], len)),
    decreases k,
{
    let s = all_states()[j as int];
    let prev = r.cycles_from_first(len, (k - 1) as nat);
    if j + 1 == k {
        assert(r.cycles_from_first(len, k)[prev.len() as int] == r.orbit(s, len));
    } else {
        lemma_cycles_from_first_complete(r, len, (k - 1) as nat, j);
        let i = choose|i: int| 0 <= i < prev.len() && prev[i] == r.orbit(s, len);
        assert(r.cycles_from_first(len, k)[i] == r.orbit(s, len));
    }
}

/// Every state whose least period `len` lies in `1..=max` has its orbit
/// over that period among the cycles found up to length `max`.
pub proof fn lemma_cycles_complete(r: RuleTable, max: nat, s: Ternary, len: nat)
    requires
        1 <= len <= max,
        r.least_period(s, len),
    ensures
        r.cycles_up_to(max).contains(r.orbit(s, len)),
    decreases max,
{
    lemma_primitive_iff_least_period(r, s, len);
    let prev = r.cycles_up_to((max - 1) as nat);
    if len == max {
        let j: nat = state_index(s) as nat;
        assert(all_states()[j as int] == s);
        lemma_cycles_from_first_complete(r, len, 3, j);
        let i = choose|i: int| 0 <= i < r.cycles_of_length(max).len() && r.cycles_of_length(max)[i] == r.orbit(s, len);
        assert(r.cycles_up_to(max)[prev.len() + i] == r.orbit(s, len));
    } else {
        lemma_cycles_complete(r, (max - 1) as nat, s, len);
        let i = choose|i: int| 0 <= i < prev.len() && prev[i] == r.orbit(s, len);
        assert(r.cycles_up_to(max)[i] == r.orbit(s, len));
    }
}

proof fn lemma_three_cycle_cycles(r: RuleTable)
    requires
        r.spec_apply(r.spec_apply(r.spec_apply(Ternary::Neg))) == Ternary::Neg,
        r.spec_apply(Ternary::Neg) != Ternary::Neg,
        r.spec_apply(Ternary::Zero) != Ternary::Zero,
        r.spec_apply(Ternary::Pos) != Ternary::Pos,
        r.on_neg != r.on_zero && r.on_zero != r.on_pos && r.on_neg != r.on_pos,
    ensures
        r.cycles_up_to(2) == Seq::<Seq<Ternary>>::empty(),
        r.cycles_up_to(3) == seq![r.orbit(Ternary::Neg, 3), r.orbit(Ternary::Zero, 3), r.orbit(Ternary::Pos, 3)],
{
    let n = Ternary::Neg;
    let z = Ternary::Zero;
    let p = Ternary::Pos;
    reveal_with_fuel(RuleTable::apply_n, 4);
    assert(all_states()[0] == n && all_states()[1] == z && all_states()[2] == p);
    assert forall|s: Ternary| #![trigger r.apply_n(s, 3)] r.apply_n(s, 1) != s && r.apply_n(s, 2) != s && r.apply_n(s, 3) == s by {
    }
    assert forall|s: Ternary| #[trigger] r.closes_primitively(s, 3) by {
        let c = r.orbit(s, 3);
        assert(c[1] != c[1int % 1int]);
        assert forall|d: int| 1 <= d < c.len() && (c.len() as int) % d == 0 implies !#[trigger] repeats_with(c, d) by {
            assert(d == 1);
        }
    }
    assert(!r.closes_primitively(n, 1) && !r.closes_primitively(z, 1) && !r.closes_primitively(p, 1));
    assert(!r.closes_primitively(n, 2) && !r.closes_primitively(z, 2) && !r.closes_primitively(p, 2));
    reveal_with_fuel(RuleTable::cycles_from_first, 4);
    reveal_with_fuel(RuleTable::cycles_up_to, 4);
    assert(r.cycles_of_length(1) =~= Seq::<Seq<Ternary>>::empty());
    assert(r.cycles_of_length(2) =~= Seq::<Seq<Ternary>>::empty());
    assert(r.cycles_up_to(0) =~= Seq::<Seq<Ternary>>::empty());
    assert(r.cycles_up_to(1) =~= Seq::<Seq<Ternary>>::empty());
    assert(r.cycles_up_to(2) =~= Seq::<Seq<Ternary>>::empty());
    assert(r.cycles_of_length(3) =~= seq![r.orbit(n, 3), r.orbit(z, 3), r.orbit(p, 3)]);
    assert(r.cycles_up_to(3) =~= seq![r.orbit(n, 3), r.orbit(z, 3), r.orbit(p, 3)]);
}

/// The rotation Neg -> Zero -> Pos -> Neg has no cycle of length one or
/// two, and its cycles up to length three are its three rotations.
pub proof fn lemma_forward_rotation_cycles(r: RuleTable)
    requires
        r.on_neg == Ternary::Zero,
        r.on_zero == Ternary::Pos,
        r.on_pos == Ternary::Neg,
    ensures
        r.cycles_up_to(2) == Seq::<Seq<Ternary>>::empty(),
        r.cycles_up_to(3) == seq![
            seq![Ternary::Neg, Ternary::Zero, Ternary::Pos],
            seq![Ternary::Zero, Ternary::Pos, Ternary::Neg],
            seq![Ternary::Pos, Ternary::Neg, Ternary::Zero],
        ],
{
    lemma_three_cycle_cycles(r);
    reveal_with_fuel(RuleTable::apply_n, 3);
    assert(r.orbit(Ternary::Neg, 3) =~= seq![Ternary::Neg, Ternary::Zero, Ternary::Pos]);
    assert(r.orbit(Ternary::Zero, 3) =~= seq![Ternary::Zero, Ternary::Pos, Ternary::Neg]);
    assert(r.orbit(Ternary::Pos, 3) =~= seq![Ternary::Pos, Ternary::Neg, Ternary::Zero]);
}

/// The rotation Neg -> Pos -> Zero -> Neg has no cycle of length one or
/// two, and its cycles up to length three are its three rotations.
pub proof fn lemma_backward_rotation_cycles(r: RuleTable)
    requires
        r.on_neg == Ternary::Pos,
        r.on_zero == Ternary::Neg,
        r.on_pos == Ternary::Zero,
    ensures
        r.cycles_up_to(2) == Seq::<Seq<Ternary>>::empty(),
        r.cycles_up_to(3) == seq![
            seq![Ternary::Neg, Ternary::Pos, Ternary::Zero],
            seq![Ternary::Zero, Ternary::Neg, Ternary::Pos],
            seq![Ternary::Pos, Ternary::Zero, Ternary::Neg],
        ],
{
    lemma_three_cycle_cycles(r);
    reveal_with_fuel(RuleTable::apply_n, 3);
    assert(r.orbit(Ternary::Neg, 3) =~= seq![Ternary::Neg, Ternary::Pos, Ternary::Zero]);
    assert(r.orbit(Ternary::Zero, 3) =~= seq![Ternary::Zero, Ternary::Neg, Ternary::Pos]);
    assert(r.orbit(Ternary::Pos, 3) =~= seq![Ternary::Pos, Ternary::Zero, Ternary::Neg]);
}

/// Whether every state of `c` equals the state at the same place in the
/// block of its first `div` states.
fn repeats_block(c: &Vec<Ternary>, div: usize) -> (b: bool)
    requires
        1 <= div <= c@.len(),
    ensures
        b == repeats_with(c@, div as int),
{
    let length = c.len();
    let mut repeats = true;
    let mut k: usize = 0;
    while k < length && repeats
        invariant
            length == c@.len(),
            1 <= div <= length,
            k <= length,
            repeats == (forall|j: int| 0 <= j < k ==> #[trigger] c@[j] == c@[j % (div as int)]),
        decreases length - k,
    {
        if c[k] != c[k % div] {
            repeats = false;
        }
        k += 1;
    }
    repeats
}

/// Whether `c` is not a shorter block repeated: for each divisor `d` of the
/// length below the length, compares every state with the state at the same
/// place in the first block.
fn is_primitive_cycle(c: &Vec<Ternary>) -> (b: bool)
    ensures
        b == is_primitive(c@),
{
    let length = c.len();
    let mut div: usize = 1;
    while div < length
        invariant
            length == c@.len(),
            1 <= div,
            forall|d: int| 1 <= d < div && (length as int) % d == 0 ==> !#[trigger] repeats_with(c@, d),
        decreases length - div,
    {
        if length % div == 0 && repeats_block(c, div) {
            return false;
        }
        div += 1;
    }
    true
}

/// Whether two cycles hold the same states in the same order.
fn same_cycle(a: &Vec<Ternary>, b: &Vec<Ternary>) -> (r: bool)
    ensures
        r == (a@ == b@),
{
    if a.len() != b.len() {
        return false;
    }
    let mut i: usize = 0;
    while i < a.len()
        invariant
            a@.len() == b@.len(),
            i <= a@.len(),
            forall|j: int| 0 <= j < i ==> a@[j] == b@[j],
        decreases a.len() - i,
    {
        if a[i] != b[i] {
            return false;
        }
        i += 1;
    }
    assert(a@ =~= b@);
    true
}

/// Whether `c` already stands in `v`.
fn holds_cycle(v: &Vec<Vec<Ternary>>, c: &Vec<Ternary>) -> (r: bool)
    ensures
        r == cycle_views(v@).contains(c@),
{
    let mut i: usize = 0;
    while i < v.len()
        invariant
            i <= v@.len(),
            forall|j: int| 0 <= j < i ==> v@[j]@ != c@,
        decreases v.len() - i,
    {
        if same_cycle(&v[i], c) {
            assert(cycle_views(v@)[i as int] == c@);
            return true;
        }
        i += 1;
    }
    assert(!cycle_views(v@).contains(c@)) by {
        if cycle_views(v@).contains(c@) {
            let j = choose|j: int| 0 <= j < cycle_views(v@).len() && cycle_views(v@)[j] == c@;
            assert(v@[j]@ == c@);
        }
    }
    false
}

/// A copy of a cycle.
fn copy_cycle(c: &Vec<Ternary>) -> (r: Vec<Ternary>)
    ensures
        r@ == c@,
{
    let mut r: Vec<Ternary> = Vec::new();
    let mut i: usize = 0;
    while i < c.len()
        invariant
            i <= c@.len(),
            r@ == c@.take(i as int),
        decreases c.len() - i,
    {
        r.push(c[i]);
        i += 1;
        assert(r@ =~= c@.take(i as int));
    }
    assert(c@.take(c@.len() as int) =~= c@);
    r
}

/// The orbit of `start`: `start` and its next `length - 1` images.
fn orbit_of(rule: RuleTable, start: Ternary, length: usize) -> (c: Vec<Ternary>)
    requires
        length >= 1,
    ensures
        c@ == rule.orbit(start, length as nat),
{
    let mut cycle: Vec<Ternary> = Vec::new();
    cycle.push(start);
    let mut state = start;
    let mut n: usize = 1;
    assert(cycle@ =~= rule.orbit(start, 1));
    while n < length
        invariant
            1 <= n <= length,
            state == rule.apply_n(start, (n - 1) as nat),
            cycle@ == rule.orbit(start, n as nat),
        decreases length - n,
    {
        state = rule.apply(state);
        cycle.push(state);
        n += 1;
        assert(cycle@ =~= rule.orbit(start, n as nat));
    }
    cycle
}

/// Finds the cycles of the rule of every length from 1 to `max_length`:
/// for each length, and each start in the order Neg, Zero, Pos, the orbit
/// of that length is kept when the rule brings it back to its start and it
/// is not a shorter cycle gone round several times. Repeated cycles are
/// then dropped, keeping the first of each.
pub fn find_cycles(rule: RuleTable, max_length: usize) -> (cycles: Vec<Vec<Ternary>>)
    ensures
        cycle_views(cycles@) == rule.cycles_up_to(max_length as nat),
        forall|a: int, b: int| 0 <= a < b < cycles@.len() ==> #[trigger] cycles@[a]@ != #[trigger] cycles@[b]@,
{
    let starts = vec![Ternary::Neg, Ternary::Zero, Ternary::Pos];
    let mut cycles: Vec<Vec<Ternary>> = Vec::new();
    let mut length: usize = 0;
    while length < max_length
        invariant
            length <= max_length,
            starts@ == all_states(),
            cycle_views(cycles@) == rule.cycles_up_to(length as nat),
        decreases max_length - length,
    {
        length += 1;
        let ghost before = cycle_views(cycles@);
        let mut si: usize = 0;
        while si < 3
            invariant
                1 <= length <= max_length,
                si <= 3,
                starts@ == all_states(),
                before == rule.cycles_up_to((length - 1) as nat),
                cycle_views(cycles@) == before + rule.cycles_from_first(length as nat, si as nat),
            decreases 3 - si,
        {
            let start = starts[si];
            let cycle = orbit_of(rule, start, length);
            let next = rule.apply(cycle[length - 1]);
            proof {
                lemma_apply_n_add(rule, start, (length - 1) as nat, 1);
            }
            let ghost prev = cycle_views(cycles@);
            if next == start && cycle.len() == length && is_primitive_cycle(&cycle) {
                cycles.push(cycle);
                assert(cycle_views(cycles@) =~= prev.push(rule.orbit(start, length as nat)));
            }
            si += 1;
            assert(cycle_views(cycles@) =~= before + rule.cycles_from_first(length as nat, si as nat));
        }
        assert(cycle_views(cycles@) =~= rule.cycles_up_to(length as nat));
    }
    let ghost found = cycle_views(cycles@);
    proof {
        lemma_cycles_distinct(rule, max_length as nat);
    }
    let mut kept: Vec<Vec<Ternary>> = Vec::new();
    let mut i: usize = 0;
    while i < cycles.len()
        invariant
            i <= cycles@.len(),
            found == cycle_views(cycles@),
            found == rule.cycles_up_to(max_length as nat),
            forall|a: int, b: int| 0 <= a < b < found.len() ==> #[trigger] found[a] != #[trigger] found[b],
            cycle_views(kept@) == found.take(i as int),
        decreases cycles.len() - i,
    {
        assert(found[i as int] == cycles@[i as int]@);
        if !holds_cycle(&kept, &cycles[i]) {
            let c = copy_cycle(&cycles[i]);
            kept.push(c);
        } else {
            assert(false) by {
                let j = choose|j: int| 0 <= j < cycle_views(kept@).len() && cycle_views(kept@)[j] == cycles@[i as int]@;
                assert(found[j] == found[i as int]);
            }
        }
        i += 1;
        assert(cycle_views(kept@) =~= found.take(i as int));
    }
    assert(found.take(found.len() as int) =~= found);
    assert forall|a: int, b: int| 0 <= a < b < kept@.len() implies #[trigger] kept@[a]@ != #[trigger] kept@[b]@ by {
        assert(cycle_views(kept@)[a] == found[a]);
        assert(cycle_views(kept@)[b] == found[b]);
    }
    kept
}

} // verus!
