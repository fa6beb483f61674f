//! The jobs of the user interface: what they are asked to do, what is said of
//! their results, and who gets the results.

pub mod message;
pub mod operation;
pub mod board;
pub mod interface;
pub mod steps;
