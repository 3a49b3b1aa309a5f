#![verifier::loop_isolation(false)]
//! Solvers for a series of small daily text puzzles.
//!
//! Every solver follows the same shape: a line-oriented parser turns the raw
//! input text into a typed model (a record list, a tree, or a grid), and a
//! deterministic computation over that model produces the answer.  Parsing and
//! solving are pure: reading files and printing answers are left to callers.

pub mod text;

pub mod day1;
pub mod day10;
pub mod day11;
pub mod day12;
pub mod day2;
pub mod day3;
pub mod day4;
pub mod day5;
pub mod day6;
pub mod day7;
pub mod day8;
pub mod day9;
