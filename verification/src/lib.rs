pub mod utils;
pub mod rulesets;
pub mod tools;
