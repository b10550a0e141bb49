//! Naming the keys that are pressed.
pub mod decode;
pub mod reference;
pub mod report;
