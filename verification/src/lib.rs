//! Solvers for a collection of grid, graph and arithmetic puzzles.
//!
//! The shared building blocks are a dense character [`grid::Grid`], a
//! state-space [`explorer`] with its cost cache, mazes as lists of open
//! cells in [`maze`] with the search over whole [`paths`], and plain-text
//! readers in [`text`]. Each puzzle has a module of its own on top of them.
pub mod adaptors;
pub mod counting;
pub mod day01;
pub mod day02;
pub mod day03;
pub mod day04;
pub mod day05;
pub mod day06;
pub mod day07;
pub mod day08;
pub mod day09;
pub mod day10;
pub mod day11;
pub mod day12;
pub mod day14;
pub mod day15;
pub mod day16;
pub mod day17;
pub mod day18;
pub mod day19;
pub mod day20;
pub mod day21;
pub mod day22;
pub mod day23;
pub mod day24;
pub mod day25;
pub mod error;
pub mod explorer;
pub mod grid;
pub mod maze;
pub mod paths;
pub mod text;
