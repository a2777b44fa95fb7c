pub mod indices;
pub mod iterator;
pub mod length;
pub mod starts;

pub use indices::Indices;
pub use iterator::StripIterator;
pub use length::length;
pub use starts::StartIterator;
