//! Alignment of two ordered sequences of labeled genomic intervals
//! ("monomers"): a semiglobal dynamic-programming scorer with a zero floor,
//! a tie-broken path backtrace, a row writer that classifies each step, and
//! a local-repair optimizer that slides labels across gap runs.

pub mod model;
pub mod parse;
pub mod engine;
pub mod extract;
pub mod optimize;
pub mod writer;
pub mod pipeline;
