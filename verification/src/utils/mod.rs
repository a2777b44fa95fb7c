pub mod bitarray;
pub mod grids;
pub mod vectors;
