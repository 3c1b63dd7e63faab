//! Verified parts of a set of small programs: a CHIP-8 machine, a
//! common-lines filter, an INI parser, a paper.io bot, a percolation grid,
//! the words of a stack language and an iterated prisoner's dilemma.
pub mod chip8;
pub mod comm;
pub mod ini;
pub mod paperio;
pub mod perc;
pub mod polka;
pub mod trust;
