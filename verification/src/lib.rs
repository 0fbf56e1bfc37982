//! Peer-group statistics for a linguistic-typology dataset.
//!
//! The engine turns a flat sequence of coded value observations
//! (language, parameter, value) into per-language reports: for every
//! parameter a language has a value for, which other languages share that
//! exact value, how many do, and what fraction of all observations in the
//! dataset that represents.

pub mod collect;
pub mod csvs;
pub mod dict;
pub mod graph;
pub mod strings;
pub mod strset;
pub mod util;
