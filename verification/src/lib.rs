pub mod arena;
pub mod catalog;
mod chance;
pub mod complex;
pub mod config;
pub mod curve;
pub mod equiv;
pub mod expr;
pub mod fingerprint;
pub mod float;
pub mod formula;
pub mod fx;
pub mod graph;
pub mod listing;
pub mod minimize;
pub mod notation;
pub mod number;
mod parallel;
pub mod parser;
pub mod plan;
pub mod readback;
pub mod render;
pub mod roundtrip;
pub mod saturate;
pub mod stochastic;
pub mod subtree;
pub mod symbolic;
pub mod text;
pub mod tidy;
pub mod value;
