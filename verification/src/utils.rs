pub mod cycle_index;
pub mod step_index;

pub use cycle_index::{cycle_index, CycleDirection};
pub use step_index::{step_index, StepDirection};
