pub mod conversion;
pub mod iterator;
pub mod symmetry;
pub mod square;
pub mod table;

pub use conversion::convert_position;
pub use iterator::Symmetries;
pub use symmetry::Symmetry;
pub use table::SymmetryTable;
