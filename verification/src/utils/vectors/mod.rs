pub mod dot_product;

pub use dot_product::dot_product;
