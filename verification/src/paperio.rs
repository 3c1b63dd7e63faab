//! A bot for a paper.io-style territory game on a square map of cells.
pub mod data;
pub mod strategy;
pub mod laws;
