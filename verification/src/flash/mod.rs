//! Flash scripts: what they may hold, and how they are run.

pub mod run;
pub mod script;
pub mod page;
pub mod terminal;
