//! Dice rolls and the rules around them for games of Chronomutants, with
//! the command parsing, routing and log formatting that the bot builds on.
pub mod bot;
pub mod chrono;
pub mod command_context;
pub mod command_set;
pub mod commands;
pub mod consts;
pub mod enum_trait;
pub mod env;
pub mod execute;
pub mod log;
pub mod naming;
pub mod tables;
pub mod text;
pub mod util;
