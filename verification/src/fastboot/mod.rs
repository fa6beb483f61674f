//! Fastboot devices.

pub mod memory;
pub mod command;
pub mod page;
