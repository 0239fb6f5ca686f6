pub mod adjust_index;
pub mod btree;
pub mod image_layout;
pub mod imagefile;
pub mod panes;
pub mod parse_csv;
pub mod path;
pub mod session;
pub mod tab;
pub mod utils;

pub use adjust_index::{cycle_index, step_index, AdjustDirection};
pub use panes::Pane;
pub use parse_csv::parse_csv;
pub use tab::Tab;
