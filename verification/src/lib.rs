//! The logic of a synthetic-input tool for Linux.
pub mod args;
pub mod backend;
pub mod bench;
pub mod clicker;
pub mod detect_key;
pub mod doctor;
pub mod elevate;
pub mod entry;
pub mod error;
pub mod exit;
pub mod input;
pub mod names;
pub mod profile;
pub mod runtime;
pub mod script;
pub mod style;
pub mod text;
pub mod text_laws;
pub mod write_script;
