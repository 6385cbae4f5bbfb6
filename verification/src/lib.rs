//! An online log-template miner. A fixed-depth prefix tree (a Drain tree)
//! routes each tokenized log line by its token count and then by its first
//! tokens to a small set of candidate clusters, folds the line into the most
//! similar cluster or opens a new one, and records a bounded sample of the
//! values seen at each variable position. A pattern generator can afterwards
//! score a curated library of named-capture patterns against those samples to
//! label a variable position.

pub mod strutil;
pub mod token;
pub mod log_cluster;
pub mod drain;
pub mod grok_generator;
