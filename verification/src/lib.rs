//! A verified solver for cryptarithmetic puzzles.
//!
//! A puzzle consists of addend words and a result word. A solution assigns a
//! distinct decimal digit to each distinct letter so that the addends, read as
//! base-10 numerals under the assignment, sum to the value of the result word.

pub mod encoder;
pub mod letters;
pub mod perms;
pub mod solver;
