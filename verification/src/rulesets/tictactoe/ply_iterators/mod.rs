pub mod sequential;
