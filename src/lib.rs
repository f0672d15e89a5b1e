//! A solver for the calendar tiling puzzle: eight polyominoes are placed on an
//! irregular board so that every cell but the two that show a month and a day
//! is covered exactly once.
pub mod board;
pub mod shape;
