pub mod cell_runs;
pub mod counting;
pub mod directions;
pub mod positions;
pub mod run_windows;
pub mod strides;
pub mod strip_indices;
pub mod strips;
pub mod symmetries;

pub use strides::compute_strides;
pub use strip_indices::StripIndices;
pub use positions::Positions;
pub use directions::DirectionIterator;
pub use cell_runs::CellRuns;
