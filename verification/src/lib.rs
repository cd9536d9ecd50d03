//! Solutions to a run of daily programming puzzles, each day in a module of its own.
//!
//! The centre of the crate is `day07`: a directory tree that is rebuilt from a transcript
//! of terminal commands and then asked for the sizes of its directories. Its model, its
//! invariant and the laws that hold of it stand in `day07::model`.
//!
//! Every function that reads text gives `None` (or an error) where the text cannot be
//! read, so that no function of the crate panics. Functions whose conditions a caller can
//! test at little cost state them as preconditions.
//!
//! `text` holds the reading of lines, pieces and numbers that the days share; `trusted`
//! holds the few calls whose contracts are believed, not proved. `alt` holds second
//! solutions to days 2, 3 and 10.

pub mod alt;
pub mod day01;
pub mod day02;
pub mod day03;
pub mod day04;
pub mod day05;
pub mod day06;
pub mod day07;
pub mod day08;
pub mod day09;
pub mod day10;
pub mod day11;
pub mod day12;
pub mod text;
pub mod trusted;
