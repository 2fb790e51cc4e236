//! Minimization of a Boolean function given as a truth table into a minimal
//! set of product terms covering every required output: Quine-McCluskey prime
//! implicant generation followed by a minimum set-cover selection, exact
//! (integer program) or greedy (maximum coverage).

pub mod cover;
pub mod implicant;
pub mod table;
