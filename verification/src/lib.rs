//! Chaos and nonlinear dynamics for ternary systems: iterated maps on
//! {-1, 0, +1}, period detection, cycle enumeration, strange-attractor
//! classification and divergence of nearby trajectories.
//!
//! A rule of the dynamics is held as its transition table (`RuleTable`):
//! for a fixed parameter a rule sends each of the three states to one
//! state, and the table records those three images.

pub mod ternary;
pub mod rule;
pub mod map;
pub mod cycles;
pub mod attractor;
pub mod sensitivity;

pub use ternary::Ternary;
pub use rule::RuleTable;
pub use map::TernaryMap;
pub use cycles::find_cycles;
pub use attractor::{StrangeAttractorResult, detect_strange_attractor};
pub use sensitivity::pairwise_divergence_counts;
