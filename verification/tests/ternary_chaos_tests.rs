use ternary_chaos::{detect_strange_attractor, find_cycles};
use ternary_chaos::{RuleTable, Ternary, TernaryMap};

// `default_rule` ternarizes `param * v * (1 - |v|)`; the factor `1 - |v|` is
// zero for Neg and Pos and `v` is zero for Zero, so every state goes to Zero.
fn default_rule_table() -> RuleTable {
    RuleTable { on_neg: Ternary::Zero, on_zero: Ternary::Zero, on_pos: Ternary::Zero }
}

// `xor_rule` with a parameter above one half swaps Neg and Pos.
fn xor_table_flipping() -> RuleTable {
    RuleTable { on_neg: Ternary::Pos, on_zero: Ternary::Zero, on_pos: Ternary::Neg }
}

// `modulation_rule` at parameter 1.0: -1 + 1 = 0, 0 + 1 = 1, 1 + 1 = 2.
fn modulation_table_at_one() -> RuleTable {
    RuleTable { on_neg: Ternary::Zero, on_zero: Ternary::Pos, on_pos: Ternary::Pos }
}

fn identity_table() -> RuleTable {
    RuleTable { on_neg: Ternary::Neg, on_zero: Ternary::Zero, on_pos: Ternary::Pos }
}

#[test]
fn test_ternary_values() {
    assert_eq!(Ternary::Neg.value(), -1);
    assert_eq!(Ternary::Zero.value(), 0);
    assert_eq!(Ternary::Pos.value(), 1);
}

#[test]
fn test_ternary_map_iteration() {
    let mut map = TernaryMap::new(Ternary::Pos, default_rule_table());
    let _result = map.iterate();
    assert!(map.history().len() == 2);
}

#[test]
fn test_ternary_map_iterate_n() {
    let mut map = TernaryMap::new(Ternary::Pos, default_rule_table());
    let results = map.iterate_n(10);
    assert_eq!(results.len(), 10);
    assert_eq!(map.history().len(), 11);
}

#[test]
fn test_period_detection_fixed_point() {
    let mut map = TernaryMap::new(Ternary::Zero, default_rule_table());
    let period = map.detect_period(50);
    assert_eq!(period, Some(1)); // Zero maps to Zero (fixed point)
}

#[test]
fn test_period_detection_xor() {
    // XOR rule with param > 0.5 oscillates: Neg <-> Pos
    let mut map = TernaryMap::new(Ternary::Neg, xor_table_flipping());
    let period = map.detect_period(50);
    assert_eq!(period, Some(2)); // Period 2: Neg -> Pos -> Neg
}

#[test]
fn test_modulation_rule() {
    let mut map = TernaryMap::new(Ternary::Zero, modulation_table_at_one());
    let state = map.iterate();
    assert_eq!(state, Ternary::Pos); // 0 + 1 = 1 -> Pos
}

#[test]
fn test_xor_rule() {
    assert_eq!(TernaryMap::xor_rule(Ternary::Neg, 1.0 > 0.5), Ternary::Pos);
    assert_eq!(TernaryMap::xor_rule(Ternary::Pos, 1.0 > 0.5), Ternary::Neg);
    assert_eq!(TernaryMap::xor_rule(Ternary::Zero, 1.0 > 0.5), Ternary::Zero);
}

#[test]
fn test_xor_rule_no_flip() {
    assert_eq!(TernaryMap::xor_rule(Ternary::Pos, 0.0 > 0.5), Ternary::Pos);
    assert_eq!(TernaryMap::xor_rule(Ternary::Neg, 0.0 > 0.5), Ternary::Neg);
}

#[test]
fn test_strange_attractor_detection() {
    let result = detect_strange_attractor(xor_table_flipping(), Ternary::Pos, 100);
    // XOR with param 1.0 is periodic (period 2), so not strange
    assert!(!result.is_strange);
    assert!(result.unique_states >= 1);
}

#[test]
fn test_strange_attractor_visits() {
    let result = detect_strange_attractor(default_rule_table(), Ternary::Pos, 100);
    assert!(result.visits.len() >= 1);
}

#[test]
fn test_find_cycles_identity() {
    // With param 0, default_rule maps everything to Zero eventually
    let cycles = find_cycles(default_rule_table(), 3);
    // Zero -> Zero is a cycle of length 1
    assert!(cycles.iter().any(|c| c.len() == 1 && c[0] == Ternary::Zero));
}

#[test]
fn test_find_cycles_xor() {
    let cycles = find_cycles(xor_table_flipping(), 3);
    // Neg -> Pos -> Neg is a cycle of length 2
    assert!(cycles.iter().any(|c| c.len() == 2));
}

#[test]
fn test_find_cycles_zero_fixed_point() {
    let cycles = find_cycles(identity_table(), 3);
    // Identity: all fixed points
    assert!(cycles.len() >= 3);
}
