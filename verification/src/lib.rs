//! Game logic of a tile-based platformer: level files, player physics and
//! collisions, menu buttons, and the save file.

pub mod error;
pub mod rect;
pub mod ground;
pub mod player;
pub mod text;
mod chance;
pub mod particles;
pub mod button;
pub mod menu;
pub mod game;
