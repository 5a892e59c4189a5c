//! A minesweeper engine: mine layout, flood-fill exploration, flagging and a
//! textual rendering of the board, each operation specified over an abstract
//! board state and verified against it.

pub mod command;
pub mod game;
pub mod laws;
pub mod model;
pub mod render;
mod sampling;
