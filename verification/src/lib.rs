//! A brute-forcer for short mathematical Rust expressions, for code golf.
pub mod pivot;
pub mod number;
pub mod expression;
pub mod text;
pub mod render;
pub mod parse;
pub mod roundtrip;
pub mod partition;
pub mod revar;
pub mod writers;
pub mod ui;
pub mod expression_writer;
pub mod compare;
pub mod manager;
pub mod search;
pub mod durations;
pub mod dashboard;
pub mod worker;
