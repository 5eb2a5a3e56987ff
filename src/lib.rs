//! Multi-pattern search: an automaton built once from an ordered list of
//! byte patterns reports every (overlapping) occurrence of every pattern in a
//! text, and two aggregation policies reduce those events per document.

pub mod events;
pub mod searcher;
pub mod automaton;
pub mod aggregate;
pub mod cli;
