//! The game's dice: outcomes, their totals, the dice table and rolls.
pub mod axes;
pub mod dice;
pub mod error;
pub mod request;
pub mod table;
pub mod tally;
pub mod types;
