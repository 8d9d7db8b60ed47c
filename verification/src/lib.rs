//! The rules of the sliding-tile game 2048 on a 4x4 board packed into a `u64`.

pub mod sliding;
pub mod board;
pub mod game;
pub mod controls;
pub mod board_laws;
