//! Exact-cover search for a calendar tiling puzzle: nine polyomino pieces are
//! laid on a 6x9 board so that every cell is covered except the three cells
//! that are labelled with the month, the day and the weekday of a chosen date.

pub mod solver;
