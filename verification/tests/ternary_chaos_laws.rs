use std::collections::HashMap;

use ternary_chaos::{detect_strange_attractor, find_cycles, pairwise_divergence_counts};
use ternary_chaos::{RuleTable, Ternary, TernaryMap};

fn rotation_table() -> RuleTable {
    RuleTable { on_neg: Ternary::Zero, on_zero: Ternary::Pos, on_pos: Ternary::Neg }
}

fn flip_table() -> RuleTable {
    RuleTable { on_neg: Ternary::Pos, on_zero: Ternary::Zero, on_pos: Ternary::Neg }
}

fn zero_table() -> RuleTable {
    RuleTable { on_neg: Ternary::Zero, on_zero: Ternary::Zero, on_pos: Ternary::Zero }
}

#[test]
fn from_i8_reads_back_values() {
    for t in [Ternary::Neg, Ternary::Zero, Ternary::Pos] {
        assert_eq!(Ternary::from_i8(t.value()), Some(t));
    }
    assert_eq!(Ternary::from_i8(-1), Some(Ternary::Neg));
    assert_eq!(Ternary::from_i8(0), Some(Ternary::Zero));
    assert_eq!(Ternary::from_i8(1), Some(Ternary::Pos));
}

#[test]
fn from_i8_refuses_other_values() {
    assert_eq!(Ternary::from_i8(2), None);
    assert_eq!(Ternary::from_i8(-2), None);
    assert_eq!(Ternary::from_i8(i8::MIN), None);
    assert_eq!(Ternary::from_i8(i8::MAX), None);
}

#[test]
fn xor_flip_twice_is_identity() {
    for t in [Ternary::Neg, Ternary::Zero, Ternary::Pos] {
        let once = TernaryMap::xor_rule(t, true);
        assert_eq!(once.value(), -t.value());
        assert_eq!(TernaryMap::xor_rule(once, true), t);
    }
}

#[test]
fn rule_table_applies_each_entry() {
    let r = rotation_table();
    assert_eq!(r.apply(Ternary::Neg), Ternary::Zero);
    assert_eq!(r.apply(Ternary::Zero), Ternary::Pos);
    assert_eq!(r.apply(Ternary::Pos), Ternary::Neg);
}

#[test]
fn iterate_n_returns_the_orbit_and_extends_history() {
    let mut map = TernaryMap::new(Ternary::Neg, rotation_table());
    let states = map.iterate_n(4);
    assert_eq!(states, vec![Ternary::Zero, Ternary::Pos, Ternary::Neg, Ternary::Zero]);
    assert_eq!(
        map.history(),
        &[Ternary::Neg, Ternary::Zero, Ternary::Pos, Ternary::Neg, Ternary::Zero][..]
    );
    assert_eq!(map.state, Ternary::Zero);
    assert!(map.iterate_n(0).is_empty());
    assert_eq!(map.history().len(), 5);
}

#[test]
fn detect_period_finds_three_cycle_at_fifth_step() {
    let mut map = TernaryMap::new(Ternary::Neg, rotation_table());
    assert_eq!(map.detect_period(50), Some(3));
    // The trajectory Neg Zero Pos Neg Zero Pos shows period 3 after 5 steps.
    assert_eq!(map.state, Ternary::Pos);
    // The history is not touched.
    assert_eq!(map.history(), &[Ternary::Neg][..]);
}

#[test]
fn detect_period_gives_up_below_five_steps() {
    let mut map = TernaryMap::new(Ternary::Neg, rotation_table());
    assert_eq!(map.detect_period(4), None);
    assert_eq!(map.state, Ternary::Zero);
    let mut map = TernaryMap::new(Ternary::Neg, rotation_table());
    assert_eq!(map.detect_period(0), None);
    assert_eq!(map.state, Ternary::Neg);
}

#[test]
fn detected_period_closes_on_the_state_reached() {
    for start in [Ternary::Neg, Ternary::Zero, Ternary::Pos] {
        for rule in [rotation_table(), flip_table(), zero_table()] {
            let mut map = TernaryMap::new(start, rule);
            let p = map.detect_period(5).expect("five steps always show a period");
            let mut s = map.state;
            for _ in 0..p {
                s = rule.apply(s);
            }
            assert_eq!(s, map.state);
        }
    }
}

#[test]
fn find_cycles_lists_rotations_of_the_three_cycle() {
    let cycles = find_cycles(rotation_table(), 3);
    assert_eq!(
        cycles,
        vec![
            vec![Ternary::Neg, Ternary::Zero, Ternary::Pos],
            vec![Ternary::Zero, Ternary::Pos, Ternary::Neg],
            vec![Ternary::Pos, Ternary::Neg, Ternary::Zero],
        ]
    );
    assert!(find_cycles(rotation_table(), 2).is_empty());
    assert!(find_cycles(rotation_table(), 0).is_empty());
}

#[test]
fn find_cycles_skips_repeated_shorter_cycles() {
    let cycles = find_cycles(flip_table(), 4);
    assert_eq!(
        cycles,
        vec![
            vec![Ternary::Zero],
            vec![Ternary::Neg, Ternary::Pos],
            vec![Ternary::Pos, Ternary::Neg],
        ]
    );
}

#[test]
fn strange_attractor_counts_visits_and_transitions() {
    let result = detect_strange_attractor(flip_table(), Ternary::Pos, 100);
    let mut expected: HashMap<i8, usize> = HashMap::new();
    expected.insert(-1, 50);
    expected.insert(1, 50);
    assert_eq!(result.visits, expected);
    assert_eq!(result.unique_states, 2);
    assert_eq!(result.transitions, 2);
    assert_eq!(result.period, Some(2));
    assert!(!result.is_strange);
}

#[test]
fn short_run_of_the_three_cycle_is_strange() {
    let result = detect_strange_attractor(rotation_table(), Ternary::Neg, 3);
    assert_eq!(result.unique_states, 3);
    assert_eq!(result.transitions, 2);
    assert_eq!(result.period, None);
    assert!(result.is_strange);
    assert_eq!(result.visits.get(&0), Some(&1));
}

#[test]
fn strange_attractor_with_no_steps() {
    let result = detect_strange_attractor(rotation_table(), Ternary::Neg, 0);
    assert!(result.visits.is_empty());
    assert_eq!(result.unique_states, 0);
    assert_eq!(result.transitions, 0);
    assert_eq!(result.period, None);
    assert!(!result.is_strange);
}

#[test]
fn divergence_counts_per_pair() {
    let counts = pairwise_divergence_counts(flip_table(), &[Ternary::Pos, Ternary::Neg, Ternary::Zero], 50);
    assert_eq!(counts, vec![50, 50, 50]);
    let counts = pairwise_divergence_counts(zero_table(), &[Ternary::Pos, Ternary::Neg], 50);
    assert_eq!(counts, vec![0]);
    // Trajectories that meet after one step diverge on no step.
    let merge = RuleTable { on_neg: Ternary::Zero, on_zero: Ternary::Zero, on_pos: Ternary::Pos };
    let counts = pairwise_divergence_counts(merge, &[Ternary::Neg, Ternary::Zero, Ternary::Pos], 3);
    assert_eq!(counts, vec![0, 3, 3]);
}

#[test]
fn divergence_counts_need_two_states() {
    assert!(pairwise_divergence_counts(rotation_table(), &[], 10).is_empty());
    assert!(pairwise_divergence_counts(rotation_table(), &[Ternary::Pos], 10).is_empty());
    let counts = pairwise_divergence_counts(rotation_table(), &[Ternary::Neg, Ternary::Neg], 10);
    assert_eq!(counts, vec![0]);
}
