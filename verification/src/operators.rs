//! The stateful operators, each as a state and the step it takes on one update.

pub mod shave;
pub mod min_max;
pub mod join;
pub mod measure;
pub mod flat_map;
