//! A store of items ranked by *frecency*: a blend of access frequency and
//! recency in which every visit bumps an item's score and scores decay
//! exponentially over time.
//!
//! Times are whole seconds since the epoch. Scores are binary fixed-point
//! numbers: the stored integer is the score multiplied by
//! [`decay::SCALE`], so `65536` stands for a score of one.

pub mod args;
pub mod decay;
pub mod keys;
pub mod serialize;
pub mod stats;
pub mod store;
