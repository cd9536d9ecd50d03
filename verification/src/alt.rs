//! Second solutions to some of the days, cut into smaller steps.

pub mod day02;
pub mod day03;
pub mod day10;
