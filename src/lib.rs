//! Compiles parsed public-transport timetable datasets into a directional
//! stop graph with compact per-edge calendars.
pub mod error;
pub mod calendar;
pub mod graph;
pub mod laws;
pub mod parser;
pub mod resolve;
