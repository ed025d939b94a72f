//! Stages of shifted intervals, and what becomes of seeds that go through
//! them.
//!
//! A stage moves each of finitely many disjoint intervals of integers by an
//! offset of its own and leaves every other integer where it is.  The
//! library reads stages and seed ranges from text, inverts a stage,
//! composes two interval maps tile by tile, folds stages that follow each
//! other into one, and finds the lowest place that any seed of a set of
//! ranges is sent to, without going through the seeds one by one.
//!
//! The interval maps are `rangemap::RangeMap<i64, i64>`; [`store`] says what
//! is taken on trust about them, [`spans`] holds the model in which all
//! contracts are written, and [`laws`] what holds of the whole.

pub mod combine;
pub mod compose;
pub mod interval;
pub mod invert;
pub mod laws;
pub mod locate;
pub mod parse;
pub mod spans;
pub mod stages;
pub mod store;
pub mod text;
