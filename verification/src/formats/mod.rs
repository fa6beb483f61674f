//! Formats of firmware images.

pub mod certificate;
pub mod der;
pub mod gpt;
pub mod secimg;
pub mod workspace;
