pub mod cli;
pub mod counters;
pub mod domain;
pub mod parser;
pub mod pattern;
pub mod ranking;
pub mod text;
pub mod tui;
pub mod export;
