//! What is particular to the board: its LEDs and its board information.

pub mod board_info;
pub mod led;
