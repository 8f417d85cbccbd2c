//! Verified solvers for a collection of small, independent puzzles: grid
//! simulations, searches, a register machine, and number sequences.

pub mod adder;
pub mod antennas;
pub mod claw;
pub mod combine;
pub mod cpu;
pub mod disk;
pub mod equations;
pub mod garden;
pub mod grid;
pub mod guard;
pub mod keypad;
pub mod levels;
pub mod lists;
pub mod locks;
pub mod maze;
pub mod mulscan;
pub mod pages;
pub mod paths;
pub mod points;
pub mod prng;
pub mod racetrack;
pub mod ram;
pub mod robots;
pub mod stones;
pub mod text;
pub mod towels;
pub mod trails;
pub mod warehouse;
pub mod wordsearch;
