//! A monochrome pixel board for persistence-of-vision style animation: shapes are
//! rasterised into point queues, and a two-phase tick flashes them on the board.
pub mod board;
pub mod shapes;

pub use board::{BoardState, Pixel, PovBoard};
pub use shapes::{cube_in_range, points_for_cube, points_for_line, points_for_square, Point};
