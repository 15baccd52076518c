//! Core of a mod manager / launcher for a family of strategy games: the mod
//! registry, category and load-order model, per-game configuration store,
//! shareable-profile text codec, and the package-assembly planner that turns an
//! enabled, ordered mod list into the staging work a launcher performs before
//! starting the game.
//!
//! All state-bearing logic lives here and is verified. File and network I/O,
//! the game-package binary codec and the GUI are external collaborators: they
//! hand this crate plain values and carry out the plans it returns.

pub mod assembly;
pub mod config_text;
pub mod error;
pub mod game_config;
pub mod html;
pub mod mods;
pub mod profile;
pub mod registry;
pub mod session;
pub mod settings;
pub mod store;
pub mod text;
