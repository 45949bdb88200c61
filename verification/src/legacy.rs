//! The graphs of the first version of the dgspec reader: one that hands out
//! numeric identifiers to dependencies, and one keyed by the dependencies'
//! names that records which dependency needs which under which framework.

pub mod graph;
