//! A fridge-side recipe bot's library: recipes ranked by the ingredients at
//! hand, the recipe cards that show them, page navigation by reactions, and
//! the fridge's serial signal.

pub mod text;
pub mod init;
pub mod rank;
pub mod card;
pub mod commands;
pub mod types;
pub mod bluetooth_daemon;
pub mod config;
