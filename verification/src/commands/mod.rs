//! The commands that the program answers.
pub mod roll;
