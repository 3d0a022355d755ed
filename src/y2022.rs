//! Solvers for the 2022 puzzles.
pub mod day1;
pub mod day2;
pub mod day3;
pub mod day4;
pub mod day5;
