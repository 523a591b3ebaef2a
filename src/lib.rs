//! Random password generation: a character alphabet (the built-in letters and
//! digits, optionally with symbols, or one of the caller's own) and a draw
//! loop that turns random values from a caller-supplied source into a
//! password, together with the reading of the command line that asks for one.

pub mod alphabet;
pub mod args;
pub mod generator;
pub mod number;
