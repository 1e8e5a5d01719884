//! rogue: a terminal roguelike after 1980 Rogue, as a verified library.
//!
//! The modules stay small and single-purpose; the program around them
//! (terminal, key events, command line) lives outside this library.

pub mod rng;
pub mod text;
pub mod map;
pub mod generate;
pub mod entity;
pub mod combat;
pub mod levels;
pub mod visibility;
pub mod walks;
pub mod connect;
pub mod shape;
pub mod game;
pub mod ui;
