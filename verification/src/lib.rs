//! Estimated one-repetition maxima for logged workout sets.
//!
//! A set is a weight moved for a number of repetitions. Weights are exact
//! decimal numbers ([`weight`]), the Epley estimate of a set is an exact
//! fraction that is rounded to whole units, halves away from zero
//! ([`estimate`], over the fractions of [`rational`]), and a report has one
//! line for each record of a log, in the order of the log ([`workout`],
//! [`report`]). [`cli`] holds what the command line decides, and [`digits`]
//! how numbers are written and read in decimal.

pub mod cli;
pub mod digits;
pub mod estimate;
pub mod rational;
pub mod report;
pub mod weight;
pub mod workout;
