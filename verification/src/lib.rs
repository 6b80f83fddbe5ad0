//! Verified solvers for a calendar of small text puzzles.
//!
//! Each puzzle has a module of its own. A module reads its input from text,
//! computes on plain values and returns the answer; nothing is read from
//! disk and nothing is printed here. Every function carries a contract
//! that says what it returns, and Verus proves that it keeps it. What is
//! taken from other crates stands behind a few items that are marked as
//! trusted where they are declared.
//!
//! - [`text`]: characters, lines, words and decimal numbers
//! - [`distinct`], [`ranking`]: dropping repeated items, sorting and sums
//! - [`day01`], [`day1_lib`]: calories carried by elves
//! - [`day2`]: rock, paper, scissors
//! - [`day3`]: rucksacks
//! - [`day4`]: zones to clean
//! - [`day5`]: stacks of crates
//! - [`day06`]: the start of a message
//! - [`day7`]: a file system rebuilt from a terminal session
//! - [`day8`]: a forest seen from its trees
//! - [`day9`]: a rope of knots that follows its head, with two knots or ten
//! - [`day10`]: a processor and its screen

pub mod day01;
pub mod day06;
pub mod day10;
pub mod day1_lib;
pub mod day2;
pub mod day3;
pub mod day4;
pub mod day5;
pub mod day7;
pub mod day8;
pub mod day9;
pub mod distinct;
pub mod ranking;
pub mod text;
