//! Musical rhythm in exact rational time: written note values, rhythm trees
//! with tuplets, flattening a tree into timed events, converting whole
//! notes into seconds at a tempo, and scoring how closely one rhythm
//! approximates another.
//!
//! Every quantity is a fraction in lowest terms over `i64`; the arithmetic
//! is done by `num_rational`. Nothing here rounds and nothing panics: a
//! function whose result would not fit returns `None`, and its contract
//! says exactly when.
//!
//! - [`rational`], [`lowest_terms`]: fractions and their arithmetic.
//! - [`units`], [`time`]: whole notes and seconds; spans and points of time.
//! - [`rhythm`]: note values, segments, the rhythm tree, durations.
//! - [`polyrhythm`]: flattening and scoring.
//! - [`timeline`]: the count and the order of flattened events.
//! - [`grid`], [`headroom`]: durations counted in 2048ths of a whole note,
//!   and the rhythms for which every result is certain to fit.
//! - [`layout`], [`notation`], [`coord`], [`parse`]: what drawing and
//!   reading a rhythm need to know of it.

pub mod coord;
pub mod grid;
pub mod headroom;
pub mod layout;
pub mod lowest_terms;
pub mod notation;
pub mod parse;
pub mod polyrhythm;
pub mod rational;
pub mod rhythm;
pub mod time;
pub mod timeline;
pub mod units;
