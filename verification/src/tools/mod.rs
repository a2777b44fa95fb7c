pub mod playing;
pub mod plies;
