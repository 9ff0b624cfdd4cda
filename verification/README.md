# ternary_chaos

Chaos and nonlinear dynamics for ternary systems, verified with Verus.

- `src/` is the verified library. A rule of the dynamics at a fixed
  parameter is held as a `RuleTable`, the images of the three states
  `Neg`, `Zero`, `Pos`. On it the library iterates maps (`TernaryMap`),
  detects periods, enumerates cycles (`find_cycles`), classifies strange
  attractors (`detect_strange_attractor`) and counts the divergence of
  pairs of trajectories (`pairwise_divergence_counts`). Each function's
  contract states its result exactly over the orbit `RuleTable::apply_n`;
  the laws of the dynamics are public proof functions beside them.
- `app/` is the real-parameter face: rules `fn(Ternary, f64) -> Ternary`,
  `Ternary::from_f64`, the Lyapunov estimate, the bifurcation sweep and the
  average divergence rate. It tabulates each rule at its parameter and
  hands the table to the library.
- `tests/` runs the library on concrete tables.
